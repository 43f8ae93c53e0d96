//! From a text to its compressed form: what is taken off first, which compressor runs, and what is
//! reported.
//!
//! Where a model has to be asked, [`route_text`] says so, and the outcome is made of its answer.
use crate::base64_strip::{strip_base64_blobs, without_matches};
use crate::cascade_dedup::{copy_embedding, kept_list, CascadeResult, KeptText};
use crate::content_detect::{content_kind, detect, kind_name, kind_text, ContentKind, KindModel};
use crate::diff_compress::{compress_diff, compressed_diff, DiffCompressConfig};
use crate::invariants::InvariantConfig;
use crate::json::{
    ascending, count_value, field, field_models, group_json_models, json_error, json_parse,
    lemma_field_at, lemma_with_field, lemma_with_other_field, models, parse_error, parse_json,
    set_field, text_value, with_field, Json, JsonModel,
};
use crate::json_compress::{
    compress_json_array, compressed_array, JsonCompressConfig, JsonRendering,
};
use crate::line_dedup::{collapse_runs, dedupe_line_runs, terminated};
use crate::line_number_strip::{is_read_output, strip_read_tool_line_numbers, stripped_text};
use crate::log_compress::{
    compress_log, kept_indexes, log_output, signal_indexes, LogCompressConfig,
};
use crate::patterns::Pattern;
use crate::search_compress::{compress_search_results, search_output};
use crate::semantic_dedup::{
    drop_models, embedding_view, kept_models, DedupResult, Drop, DropModel, KeptModel, KeptSentence,
    SentenceShape,
};
use crate::text::{
    byte_len, bytes_in, copy_str, dec, decimal_usize, join, join_texts, lemma_views_push,
    option_view, split_lines, views,
};
use vstd::prelude::*;

verus! {

/// Texts of at most so many bytes are left to the cheaper steps.
pub const SKIP_UNDER_BYTES: usize = 2000;

/// How hard the compressors push.
#[derive(Debug, Clone, Copy, PartialEq, Eq, Structural)]
pub enum Level {
    Conservative,
    Default,
    Aggressive,
}

/// How sentences are compared.
#[derive(Debug, Clone, Copy, PartialEq, Eq, Structural)]
pub enum DedupeMethod {
    MiniLM,
    Cascade,
}

/// What a level means to each compressor.
pub struct LevelConfigs {
    /// How alike two sentences have to be, in percent, for one of them to go.
    pub paraphrase_percent: u32,
    pub diff: DiffCompressConfig,
    pub log: LogCompressConfig,
    pub json: JsonCompressConfig,
}

pub open spec fn paraphrase_percent(level: Level) -> int {
    match level {
        Level::Conservative => 90,
        Level::Default => 80,
        Level::Aggressive => 70,
    }
}

pub open spec fn diff_config(level: Level) -> DiffCompressConfig {
    match level {
        Level::Conservative => DiffCompressConfig {
            max_context_lines: 4,
            max_hunks_per_file: 20,
            max_files: 40,
        },
        Level::Default => DiffCompressConfig {
            max_context_lines: 2,
            max_hunks_per_file: 10,
            max_files: 20,
        },
        Level::Aggressive => DiffCompressConfig {
            max_context_lines: 1,
            max_hunks_per_file: 5,
            max_files: 10,
        },
    }
}

pub open spec fn log_config(level: Level) -> LogCompressConfig {
    match level {
        Level::Conservative => LogCompressConfig {
            max_errors: 20,
            max_warnings: 10,
            context_lines: 4,
            max_total_lines: 200,
        },
        Level::Default => LogCompressConfig {
            max_errors: 10,
            max_warnings: 5,
            context_lines: 2,
            max_total_lines: 100,
        },
        Level::Aggressive => LogCompressConfig {
            max_errors: 5,
            max_warnings: 2,
            context_lines: 1,
            max_total_lines: 50,
        },
    }
}

pub open spec fn json_config(level: Level) -> JsonCompressConfig {
    JsonCompressConfig {
        keep_edge: match level {
            Level::Conservative => 10,
            Level::Default => 5,
            Level::Aggressive => 2,
        },
        invariants: InvariantConfig {
            max_enum_values: 5,
            max_value_len: 24,
            max_marker_bytes: 160,
        },
        lossless_min_savings_percent: 30,
    }
}

pub fn configs_for_level(level: Level) -> (c: LevelConfigs)
    ensures
        c.paraphrase_percent == paraphrase_percent(level),
        c.diff == diff_config(level),
        c.log == log_config(level),
        c.json == json_config(level),
{
    match level {
        Level::Conservative => LevelConfigs {
            paraphrase_percent: 90,
            diff: DiffCompressConfig {
                max_context_lines: 4,
                max_hunks_per_file: 20,
                max_files: 40,
            },
            log: LogCompressConfig {
                max_errors: 20,
                max_warnings: 10,
                context_lines: 4,
                max_total_lines: 200,
            },
            json: JsonCompressConfig { keep_edge: 10, ..JsonCompressConfig::default() },
        },
        Level::Default => LevelConfigs {
            paraphrase_percent: 80,
            diff: DiffCompressConfig::default(),
            log: LogCompressConfig::default(),
            json: JsonCompressConfig::default(),
        },
        Level::Aggressive => LevelConfigs {
            paraphrase_percent: 70,
            diff: DiffCompressConfig { max_context_lines: 1, max_hunks_per_file: 5, max_files: 10 },
            log: LogCompressConfig {
                max_errors: 5,
                max_warnings: 2,
                context_lines: 1,
                max_total_lines: 50,
            },
            json: JsonCompressConfig { keep_edge: 2, ..JsonCompressConfig::default() },
        },
    }
}

/// A compressed text, what compressed it, and what more there is to report.
#[derive(Debug)]
pub struct Output {
    pub compressed: String,
    pub source: &'static str,
    pub detail: Vec<(String, Json)>,
}

pub struct OutputModel {
    pub compressed: Seq<char>,
    pub source: Seq<char>,
    pub detail: Seq<(Seq<char>, JsonModel)>,
}

impl View for Output {
    type V = OutputModel;

    open spec fn view(&self) -> OutputModel {
        OutputModel {
            compressed: self.compressed@,
            source: self.source@,
            detail: field_models(self.detail@),
        }
    }
}

fn plain_output(compressed: String, source: &'static str) -> (o: Output)
    ensures
        o@ == (OutputModel { compressed: compressed@, source: source@, detail: seq![] }),
{
    let detail: Vec<(String, Json)> = Vec::new();
    assert(field_models(detail@) =~= seq![]);
    Output { compressed, source, detail }
}

fn output_with_counts(
    compressed: String,
    source: &'static str,
    first: &str,
    first_count: usize,
    second: &str,
    second_count: usize,
) -> (o: Output)
    ensures
        o@ == (OutputModel {
            compressed: compressed@,
            source: source@,
            detail: seq![
                (first@, JsonModel::Int(first_count as int)),
                (second@, JsonModel::Int(second_count as int)),
            ],
        }),
{
    let detail = vec![
        (copy_str(first), count_value(first_count)),
        (copy_str(second), count_value(second_count)),
    ];
    assert(field_models(detail@) =~= seq![
        (first@, JsonModel::Int(first_count as int)),
        (second@, JsonModel::Int(second_count as int)),
    ]);
    Output { compressed, source, detail }
}

/// What comes next: an output, or sentences that a model has to compare.
#[derive(Debug)]
pub enum Step {
    Done(Output),
    Semantic(String),
    Cascade(String),
}

pub enum StepModel {
    Done(OutputModel),
    Semantic(Seq<char>),
    Cascade(Seq<char>),
}

impl View for Step {
    type V = StepModel;

    open spec fn view(&self) -> StepModel {
        match self {
            Step::Done(o) => StepModel::Done(o@),
            Step::Semantic(s) => StepModel::Semantic(s@),
            Step::Cascade(s) => StepModel::Cascade(s@),
        }
    }
}

pub open spec fn json_output(text: Seq<char>, level: Level) -> OutputModel {
    match compressed_array(text, seq![], json_config(level)) {
        Some(a) => OutputModel {
            compressed: a.content,
            source: match a.rendering {
                JsonRendering::RowSelected => "json"@,
                JsonRendering::CsvSchema => "json-csv-schema"@,
            },
            detail: seq![
                ("elements_after"@, JsonModel::Int(a.compressed as int)),
                ("elements_before"@, JsonModel::Int(a.original as int)),
            ],
        },
        None => OutputModel { compressed: text, source: "json-passthrough"@, detail: seq![] },
    }
}

pub open spec fn search_result(text: Seq<char>) -> OutputModel {
    let lines = search_output(split_lines(text));
    OutputModel {
        compressed: join(lines, "\n"@),
        source: "search"@,
        detail: seq![
            ("lines_after"@, JsonModel::Int(lines.len() as int)),
            ("lines_before"@, JsonModel::Int(split_lines(text).len() as int)),
        ],
    }
}

/// The text with long runs of the same line collapsed.
pub open spec fn without_runs(text: Seq<char>) -> Seq<char> {
    terminated(collapse_runs(split_lines(text)))
}

pub open spec fn log_result(text: Seq<char>, level: Level) -> OutputModel {
    let deduped = without_runs(text);
    let lines = split_lines(deduped);
    let config = log_config(level);
    if byte_len(deduped) <= SKIP_UNDER_BYTES {
        OutputModel { compressed: deduped, source: "dedup"@, detail: seq![] }
    } else if signal_indexes(lines, config).len() == 0 {
        OutputModel {
            compressed: deduped,
            source: "dedup+log"@,
            detail: seq![
                ("lines_after"@, JsonModel::Int(lines.len() as int)),
                ("lines_before"@, JsonModel::Int(lines.len() as int)),
            ],
        }
    } else {
        OutputModel {
            compressed: join(log_output(lines, config), "\n"@),
            source: "dedup+log"@,
            detail: seq![
                ("lines_after"@, JsonModel::Int(kept_indexes(lines, config).len() as int)),
                ("lines_before"@, JsonModel::Int(lines.len() as int)),
            ],
        }
    }
}

pub open spec fn diff_result(text: Seq<char>, level: Level) -> OutputModel {
    if byte_len(text) <= SKIP_UNDER_BYTES {
        OutputModel { compressed: text, source: "passthrough"@, detail: seq![] }
    } else {
        let (content, files, removed) = compressed_diff(text, ""@, diff_config(level));
        OutputModel {
            compressed: content,
            source: "diff"@,
            detail: seq![
                ("files_affected"@, JsonModel::Int(files as int)),
                ("hunks_removed"@, JsonModel::Int(removed as int)),
            ],
        }
    }
}

/// The output where it is smaller than the text, or else with the text as it was.
pub open spec fn no_larger(o: OutputModel, text: Seq<char>) -> OutputModel {
    if byte_len(o.compressed) < byte_len(text) {
        o
    } else {
        OutputModel { compressed: text, ..o }
    }
}

pub open spec fn step_no_larger(s: StepModel, text: Seq<char>) -> StepModel {
    match s {
        StepModel::Done(o) => StepModel::Done(no_larger(o, text)),
        _ => s,
    }
}

/// Whether an output is the text as it was or takes fewer bytes.
pub open spec fn is_no_larger(compressed: Seq<char>, text: Seq<char>) -> bool {
    compressed == text || byte_len(compressed) < byte_len(text)
}

/// What a text of a kind is routed to. Nothing is handed out that is not smaller than the text.
pub open spec fn routed(text: Seq<char>, kind: KindModel, level: Level, method: DedupeMethod) -> StepModel {
    step_no_larger(compressed_as(text, kind, level, method), text)
}

/// What the compressor for a kind makes of a text.
pub open spec fn compressed_as(
    text: Seq<char>,
    kind: KindModel,
    level: Level,
    method: DedupeMethod,
) -> StepModel {
    match kind {
        KindModel::Json => StepModel::Done(json_output(text, level)),
        KindModel::SearchResults => StepModel::Done(search_result(text)),
        KindModel::Log => StepModel::Done(log_result(text, level)),
        KindModel::Diff => StepModel::Done(diff_result(text, level)),
        KindModel::PlainText => {
            let deduped = without_runs(text);
            if byte_len(deduped) <= SKIP_UNDER_BYTES {
                StepModel::Done(
                    OutputModel { compressed: deduped, source: "dedup"@, detail: seq![] },
                )
            } else if method == DedupeMethod::Cascade {
                StepModel::Cascade(deduped)
            } else {
                StepModel::Semantic(deduped)
            }
        },
        KindModel::Other(_) => StepModel::Done(
            OutputModel { compressed: without_runs(text), source: "dedup"@, detail: seq![] },
        ),
    }
}

fn route_json(text: &str, config: &JsonCompressConfig, Ghost(level): Ghost<Level>) -> (o: Output)
    requires
        *config == json_config(level),
    ensures
        o@ == json_output(text@, level),
{
    match compress_json_array(text, config) {
        Some(result) => {
            let source = match result.rendering {
                JsonRendering::RowSelected => "json",
                JsonRendering::CsvSchema => "json-csv-schema",
            };
            output_with_counts(
                result.content,
                source,
                "elements_after",
                result.compressed_elements,
                "elements_before",
                result.original_elements,
            )
        },
        None => plain_output(copy_str(text), "json-passthrough"),
    }
}

fn route_log(text: &str, config: &LogCompressConfig, Ghost(level): Ghost<Level>) -> (o: Output)
    requires
        *config == log_config(level),
    ensures
        o@ == log_result(text@, level),
{
    let deduped = dedupe_line_runs(text);
    if bytes_in(deduped.as_str()) <= SKIP_UNDER_BYTES {
        return plain_output(deduped, "dedup");
    }
    let result = compress_log(deduped.as_str(), config);
    output_with_counts(
        result.content,
        "dedup+log",
        "lines_after",
        result.compressed_line_count,
        "lines_before",
        result.original_line_count,
    )
}

fn route_diff(text: &str, config: &DiffCompressConfig, Ghost(level): Ghost<Level>) -> (o: Output)
    requires
        *config == diff_config(level),
    ensures
        o@ == diff_result(text@, level),
{
    if bytes_in(text) <= SKIP_UNDER_BYTES {
        return plain_output(copy_str(text), "passthrough");
    }
    let result = compress_diff(text, "", config);
    output_with_counts(
        result.content,
        "diff",
        "files_affected",
        result.files_affected,
        "hunks_removed",
        result.hunks_removed,
    )
}

/// An output in place of a text: the text itself where the output is not smaller.
pub fn smaller_output(output: Output, text: &str) -> (o: Output)
    ensures
        o@ == no_larger(output@, text@),
        is_no_larger(o@.compressed, text@),
{
    if bytes_in(output.compressed.as_str()) < bytes_in(text) {
        output
    } else {
        Output { compressed: copy_str(text), source: output.source, detail: output.detail }
    }
}

fn smaller_step(step: Step, text: &str) -> (s: Step)
    ensures
        s@ == step_no_larger(step@, text@),
        s@ matches StepModel::Done(o) ==> is_no_larger(o.compressed, text@),
{
    match step {
        Step::Done(output) => Step::Done(smaller_output(output, text)),
        other => other,
    }
}

/// Picks the compressor for a text of a known kind and runs it.
pub fn route_kind(text: &str, kind: &ContentKind, level: Level, method: DedupeMethod) -> (s: Step)
    ensures
        s@ == routed(text@, kind@, level, method),
        s@ matches StepModel::Done(o) ==> is_no_larger(o.compressed, text@),
{
    smaller_step(run_compressor(text, kind, level, method), text)
}

fn run_compressor(text: &str, kind: &ContentKind, level: Level, method: DedupeMethod) -> (s: Step)
    ensures
        s@ == compressed_as(text@, kind@, level, method),
{
    let configs = configs_for_level(level);
    match kind {
        ContentKind::Json => Step::Done(route_json(text, &configs.json, Ghost(level))),
        ContentKind::SearchResults => {
            let result = compress_search_results(text);
            Step::Done(
                output_with_counts(
                    result.content,
                    "search",
                    "lines_after",
                    result.compressed_lines,
                    "lines_before",
                    result.original_lines,
                ),
            )
        },
        ContentKind::Log => Step::Done(route_log(text, &configs.log, Ghost(level))),
        ContentKind::Diff => Step::Done(route_diff(text, &configs.diff, Ghost(level))),
        ContentKind::PlainText => {
            let deduped = dedupe_line_runs(text);
            if bytes_in(deduped.as_str()) <= SKIP_UNDER_BYTES {
                Step::Done(plain_output(deduped, "dedup"))
            } else {
                match method {
                    DedupeMethod::Cascade => Step::Cascade(deduped),
                    DedupeMethod::MiniLM => Step::Semantic(deduped),
                }
            }
        },
        ContentKind::Other(_) => Step::Done(plain_output(dedupe_line_runs(text), "dedup")),
    }
}

/// A text without line numbers and encoded blobs.
#[derive(Debug)]
pub struct Prepared {
    pub text: String,
    pub line_numbers_stripped: bool,
    pub base64_blobs_removed: usize,
}

/// The text without encoded blobs.
pub open spec fn without_blobs(text: Seq<char>) -> Seq<char> {
    without_matches(Pattern::StandaloneBase64, without_matches(Pattern::DataUri, text))
}

pub open spec fn blob_count(text: Seq<char>) -> nat {
    Pattern::DataUri.spans_in(text).len() + Pattern::StandaloneBase64.spans_in(
        without_matches(Pattern::DataUri, text),
    ).len()
}

/// Takes off what would hide the kind of the text.
pub fn prepare(text: &str) -> (p: Prepared)
    ensures
        p.text@ == without_blobs(stripped_text(text@)),
        p.line_numbers_stripped == is_read_output(text@),
        p.base64_blobs_removed == blob_count(stripped_text(text@)),
{
    let (bare, line_numbers_stripped) = strip_read_tool_line_numbers(text);
    let (text, base64_blobs_removed) = strip_base64_blobs(bare.as_str());
    Prepared { text, line_numbers_stripped, base64_blobs_removed }
}

/// The kind of a prepared text: the forced one, or what its shape or the label of a classifier says.
pub fn kind_of(prepared: &Prepared, forced: Option<ContentKind>, label: Option<String>) -> (k: ContentKind)
    ensures
        k@ == (match forced {
            Some(f) => f@,
            None => content_kind(prepared.text@, option_view(label)),
        }),
{
    match forced {
        Some(f) => f,
        None => detect(prepared.text.as_str(), label),
    }
}

/// The output with what was taken off the text before.
pub open spec fn annotated(o: OutputModel, line_numbers: bool, blobs: nat) -> OutputModel {
    let first = if line_numbers {
        with_field(o.detail, "line_numbers_stripped"@, JsonModel::Bool(true))
    } else {
        o.detail
    };
    OutputModel {
        detail: if blobs > 0 {
            with_field(first, "base64_blobs_removed"@, JsonModel::Int(blobs as int))
        } else {
            first
        },
        ..o
    }
}

pub fn annotate(output: Output, prepared: &Prepared) -> (o: Output)
    ensures
        o@ == annotated(
            output@,
            prepared.line_numbers_stripped,
            prepared.base64_blobs_removed as nat,
        ),
{
    let Output { compressed, source, detail } = output;
    let mut detail = detail;
    if prepared.line_numbers_stripped {
        set_field(&mut detail, copy_str("line_numbers_stripped"), Json::Bool(true));
    }
    if prepared.base64_blobs_removed > 0 {
        set_field(
            &mut detail,
            copy_str("base64_blobs_removed"),
            count_value(prepared.base64_blobs_removed),
        );
    }
    Output { compressed, source, detail }
}

/// Routes a text: takes off what hides its kind, finds the kind and runs the compressor.
pub fn route_text(
    text: &str,
    forced: Option<ContentKind>,
    label: Option<String>,
    level: Level,
    method: DedupeMethod,
) -> (r: (ContentKind, Prepared, Step))
    ensures
        r.1.text@ == without_blobs(stripped_text(text@)),
        r.1.line_numbers_stripped == is_read_output(text@),
        r.1.base64_blobs_removed == blob_count(stripped_text(text@)),
        r.0@ == (match forced {
            Some(f) => f@,
            None => content_kind(r.1.text@, option_view(label)),
        }),
        r.2@ == step_no_larger(routed(r.1.text@, r.0@, level, method), text@),
        r.2@ matches StepModel::Done(o) ==> is_no_larger(o.compressed, text@),
{
    let prepared = prepare(text);
    let kind = kind_of(&prepared, forced, label);
    let step = route_kind(prepared.text.as_str(), &kind, level, method);
    (kind, prepared, smaller_step(step, text))
}

// ---------------------------------------------------------------------------
// What the models' answers are made into
// ---------------------------------------------------------------------------

pub open spec fn shape_text(s: SentenceShape) -> Seq<char> {
    match s {
        SentenceShape::Narrative => "narrative"@,
        SentenceShape::Concept => "concept"@,
    }
}

/// The field with the numbers of an embedding, where it is asked for and there is one.
pub open spec fn embedding_field(embedding: Option<Seq<JsonModel>>, asked: bool) -> Seq<
    (Seq<char>, JsonModel),
> {
    match embedding {
        Some(e) if asked => seq![("embedding"@, JsonModel::Array(e))],
        _ => seq![],
    }
}

pub open spec fn kept_json(k: KeptModel, include_embedding: bool) -> JsonModel {
    JsonModel::Object(
        embedding_field(k.embedding, include_embedding) + seq![
            ("index"@, JsonModel::Int(k.index)),
            ("shape"@, JsonModel::Text(shape_text(k.shape))),
            ("text"@, JsonModel::Text(k.text)),
        ],
    )
}

pub open spec fn drop_json(d: DropModel) -> JsonModel {
    JsonModel::Object(
        seq![
            ("dropped_index"@, JsonModel::Int(d.dropped)),
            ("kept_index"@, JsonModel::Int(d.kept)),
            ("similarity"@, d.similarity),
        ],
    )
}

/// The texts of the sentences that tell a story.
pub open spec fn stories(kept: Seq<KeptModel>) -> Seq<Seq<char>>
    decreases kept.len(),
{
    if kept.len() == 0 {
        seq![]
    } else {
        let earlier = stories(kept.drop_last());
        if kept.last().shape == SentenceShape::Narrative {
            earlier.push(kept.last().text)
        } else {
            earlier
        }
    }
}

pub open spec fn texts_json(texts: Seq<Seq<char>>) -> JsonModel {
    JsonModel::Array(texts.map_values(|t: Seq<char>| JsonModel::Text(t)))
}

pub open spec fn semantic_output(r: DedupResult, include_embedding: bool) -> OutputModel {
    let kept = kept_models(r.kept@);
    OutputModel {
        compressed: r.content@,
        source: "dedup+semantic"@,
        detail: seq![
            (
                "drops"@,
                JsonModel::Array(drop_models(r.drops@).map_values(|d: DropModel| drop_json(d))),
            ),
            (
                "kept"@,
                JsonModel::Array(kept.map_values(|k: KeptModel| kept_json(k, include_embedding))),
            ),
            ("punctuation_restored"@, JsonModel::Bool(r.punctuation_restored)),
            ("sentences_after"@, JsonModel::Int(r.kept_sentences as int)),
            ("sentences_before"@, JsonModel::Int(r.original_sentences as int)),
            ("stories"@, texts_json(stories(kept))),
            ("summary"@, texts_json(views(r.summary@))),
        ],
    }
}

fn text_values(texts: &Vec<String>) -> (j: Json)
    ensures
        j@ == texts_json(views(texts@)),
{
    broadcast use group_json_models;

    let mut out: Vec<Json> = Vec::new();
    let mut i: usize = 0;
    while i < texts.len()
        invariant
            i <= texts@.len(),
            out@.len() == i,
            forall|j: int| 0 <= j < i ==> (#[trigger] out@[j])@ == JsonModel::Text(texts@[j]@),
        decreases texts.len() - i,
    {
        out.push(text_value(texts[i].as_str()));
        i = i + 1;
    }
    assert(models(out@) =~= views(texts@).map_values(|t: Seq<char>| JsonModel::Text(t)));
    Json::Array(out)
}

fn start_fields(embedding: &Option<Vec<Json>>, include_embedding: bool) -> (out: Vec<(String, Json)>)
    ensures
        field_models(out@) == embedding_field(embedding_view(*embedding), include_embedding),
{
    broadcast use group_json_models;

    let mut out: Vec<(String, Json)> = Vec::new();
    assert(field_models(out@) =~= seq![]);
    if include_embedding {
        match copy_embedding(embedding) {
            Some(numbers) => {
                let value = Json::Array(numbers);
                let ghost m = value@;
                out.push((copy_str("embedding"), value));
                assert(field_models(out@) =~= seq![("embedding"@, m)]);
            },
            None => {},
        }
    }
    out
}

fn json_of_kept(k: &KeptSentence, include_embedding: bool) -> (j: Json)
    ensures
        j@ == kept_json(k@, include_embedding),
{
    broadcast use group_json_models;

    let mut fields = start_fields(&k.embedding, include_embedding);
    let ghost first = field_models(fields@);
    let shape = match k.shape {
        SentenceShape::Narrative => "narrative",
        SentenceShape::Concept => "concept",
    };
    fields.push((copy_str("index"), count_value(k.index)));
    fields.push((copy_str("shape"), text_value(shape)));
    fields.push((copy_str("text"), text_value(k.text.as_str())));
    assert(field_models(fields@) =~= first + seq![
        ("index"@, JsonModel::Int(k.index as int)),
        ("shape"@, JsonModel::Text(shape_text(k.shape))),
        ("text"@, JsonModel::Text(k.text@)),
    ]);
    Json::Object(fields)
}

fn json_of_drop(d: &Drop) -> (j: Json)
    ensures
        j@ == drop_json(d@),
{
    broadcast use group_json_models;

    let fields = vec![
        (copy_str("dropped_index"), count_value(d.dropped_index)),
        (copy_str("kept_index"), count_value(d.kept_index)),
        (copy_str("similarity"), d.similarity.copy()),
    ];
    assert(field_models(fields@) =~= seq![
        ("dropped_index"@, JsonModel::Int(d.dropped_index as int)),
        ("kept_index"@, JsonModel::Int(d.kept_index as int)),
        ("similarity"@, d.similarity@),
    ]);
    Json::Object(fields)
}

fn json_of_all_kept(kept: &Vec<KeptSentence>, include_embedding: bool) -> (j: Json)
    ensures
        j@ == JsonModel::Array(
            kept_models(kept@).map_values(|k: KeptModel| kept_json(k, include_embedding)),
        ),
{
    broadcast use group_json_models;

    let mut out: Vec<Json> = Vec::new();
    let mut i: usize = 0;
    while i < kept.len()
        invariant
            i <= kept@.len(),
            out@.len() == i,
            forall|j: int|
                0 <= j < i ==> (#[trigger] out@[j])@ == kept_json(kept@[j]@, include_embedding),
        decreases kept.len() - i,
    {
        out.push(json_of_kept(&kept[i], include_embedding));
        i = i + 1;
    }
    assert(models(out@) =~= kept_models(kept@).map_values(
        |k: KeptModel| kept_json(k, include_embedding),
    ));
    Json::Array(out)
}

fn json_of_all_drops(drops: &Vec<Drop>) -> (j: Json)
    ensures
        j@ == JsonModel::Array(drop_models(drops@).map_values(|d: DropModel| drop_json(d))),
{
    broadcast use group_json_models;

    let mut out: Vec<Json> = Vec::new();
    let mut i: usize = 0;
    while i < drops.len()
        invariant
            i <= drops@.len(),
            out@.len() == i,
            forall|j: int| 0 <= j < i ==> (#[trigger] out@[j])@ == drop_json(drops@[j]@),
        decreases drops.len() - i,
    {
        out.push(json_of_drop(&drops[i]));
        i = i + 1;
    }
    assert(models(out@) =~= drop_models(drops@).map_values(|d: DropModel| drop_json(d)));
    Json::Array(out)
}

fn collect_stories(kept: &Vec<KeptSentence>) -> (out: Vec<String>)
    ensures
        views(out@) == stories(kept_models(kept@)),
{
    broadcast use lemma_views_push;

    let ghost all = kept_models(kept@);
    let mut out: Vec<String> = Vec::new();
    let mut i: usize = 0;
    assert(all.take(0) =~= seq![]);
    assert(views(out@) =~= seq![]);
    while i < kept.len()
        invariant
            i <= kept@.len(),
            all == kept_models(kept@),
            views(out@) == stories(all.take(i as int)),
        decreases kept.len() - i,
    {
        assert(all.take(i + 1).drop_last() =~= all.take(i as int));
        assert(all.take(i + 1).last() == kept@[i as int]@);
        if kept[i].shape == SentenceShape::Narrative {
            out.push(copy_str(kept[i].text.as_str()));
        }
        i = i + 1;
    }
    assert(all.take(all.len() as int) =~= all);
    out
}

/// The output of the sentence model: the kept sentences, which of them tell stories, what was
/// dropped and for which sentence, and a summary.
pub fn build_semantic_dedup_output(result: &DedupResult, include_embedding: bool) -> (o: Output)
    ensures
        o@ == semantic_output(*result, include_embedding),
{
    let told = collect_stories(&result.kept);
    let detail = vec![
        (copy_str("drops"), json_of_all_drops(&result.drops)),
        (copy_str("kept"), json_of_all_kept(&result.kept, include_embedding)),
        (copy_str("punctuation_restored"), Json::Bool(result.punctuation_restored)),
        (copy_str("sentences_after"), count_value(result.kept_sentences)),
        (copy_str("sentences_before"), count_value(result.original_sentences)),
        (copy_str("stories"), text_values(&told)),
        (copy_str("summary"), text_values(&result.summary)),
    ];
    assert(field_models(detail@) =~= semantic_output(*result, include_embedding).detail);
    Output { compressed: copy_str(result.content.as_str()), source: "dedup+semantic", detail }
}

/// What the answer of the sentence model is made into, before it is held against the text.
pub open spec fn answered(
    result: Option<DedupResult>,
    deduped: Seq<char>,
    include_embedding: bool,
) -> OutputModel {
    match result {
        Some(r) => semantic_output(r, include_embedding),
        None => OutputModel { compressed: deduped, source: "error"@, detail: seq![] },
    }
}

/// The output where the sentence model gave an answer, or what it was asked about where it did not; the
/// text where that is not smaller.
pub fn finish_semantic(
    result: &Option<DedupResult>,
    deduped: &str,
    text: &str,
    include_embedding: bool,
) -> (o: Output)
    ensures
        o@ == no_larger(answered(*result, deduped@, include_embedding), text@),
        is_no_larger(o@.compressed, text@),
{
    let output = match result {
        Some(r) => build_semantic_dedup_output(r, include_embedding),
        None => plain_output(copy_str(deduped), "error"),
    };
    smaller_output(output, text)
}

pub open spec fn cascade_kept_json(k: KeptText, include_embedding: bool) -> JsonModel {
    JsonModel::Object(
        embedding_field(k.embedding, include_embedding) + seq![("text"@, JsonModel::Text(k.text))],
    )
}

/// The time that each of the three stages took, in milliseconds.
#[derive(Debug)]
pub struct StageTimes {
    pub stage1_ms: Json,
    pub stage2_ms: Json,
    pub stage3_ms: Json,
}

pub open spec fn cascade_output(r: CascadeResult, times: StageTimes, include_embedding: bool) -> OutputModel {
    let kept = kept_list(r.kept@);
    OutputModel {
        compressed: join(kept.map_values(|k: KeptText| k.text), " "@),
        source: "cascade"@,
        detail: seq![
            (
                "kept"@,
                JsonModel::Array(
                    kept.map_values(|k: KeptText| cascade_kept_json(k, include_embedding)),
                ),
            ),
            ("kept_count"@, JsonModel::Int(kept.len() as int)),
            ("removed_count"@, JsonModel::Int(r.removed_count as int)),
            ("stage1_ms"@, times.stage1_ms@),
            ("stage2_ms"@, times.stage2_ms@),
            ("stage3_ms"@, times.stage3_ms@),
        ],
    }
}

fn json_of_cascade_kept(k: &crate::cascade_dedup::KeptSentence, include_embedding: bool) -> (j: Json)
    ensures
        j@ == cascade_kept_json(k@, include_embedding),
{
    broadcast use group_json_models;

    let mut fields = start_fields(&k.embedding, include_embedding);
    let ghost first = field_models(fields@);
    fields.push((copy_str("text"), text_value(k.text.as_str())));
    assert(field_models(fields@) =~= first + seq![("text"@, JsonModel::Text(k.text@))]);
    Json::Object(fields)
}

fn cascade_kept(result: &CascadeResult, include_embedding: bool) -> (r: (Json, Vec<String>))
    ensures
        r.0@ == JsonModel::Array(
            kept_list(result.kept@).map_values(
                |k: KeptText| cascade_kept_json(k, include_embedding),
            ),
        ),
        views(r.1@) == kept_list(result.kept@).map_values(|k: KeptText| k.text),
{
    broadcast use group_json_models;

    let mut out: Vec<Json> = Vec::new();
    let mut texts: Vec<String> = Vec::new();
    let mut i: usize = 0;
    while i < result.kept.len()
        invariant
            i <= result.kept@.len(),
            out@.len() == i,
            texts@.len() == i,
            forall|j: int|
                0 <= j < i ==> (#[trigger] out@[j])@ == cascade_kept_json(
                    result.kept@[j]@,
                    include_embedding,
                ),
            forall|j: int| 0 <= j < i ==> (#[trigger] texts@[j])@ == result.kept@[j].text@,
        decreases result.kept.len() - i,
    {
        out.push(json_of_cascade_kept(&result.kept[i], include_embedding));
        texts.push(copy_str(result.kept[i].text.as_str()));
        i = i + 1;
    }
    let ghost kept = kept_list(result.kept@);
    assert(models(out@) =~= kept.map_values(|k: KeptText| cascade_kept_json(k, include_embedding)));
    assert(views(texts@) =~= kept.map_values(|k: KeptText| k.text));
    (Json::Array(out), texts)
}

/// The output of the cascade, with the text where what was kept is not smaller.
pub fn build_cascade_output(
    result: &CascadeResult,
    times: &StageTimes,
    text: &str,
    include_embedding: bool,
) -> (o: Output)
    ensures
        o@ == no_larger(cascade_output(*result, *times, include_embedding), text@),
        is_no_larger(o@.compressed, text@),
{
    let (kept, texts) = cascade_kept(result, include_embedding);
    let detail = vec![
        (copy_str("kept"), kept),
        (copy_str("kept_count"), count_value(result.kept.len())),
        (copy_str("removed_count"), count_value(result.removed_count)),
        (copy_str("stage1_ms"), times.stage1_ms.copy()),
        (copy_str("stage2_ms"), times.stage2_ms.copy()),
        (copy_str("stage3_ms"), times.stage3_ms.copy()),
    ];
    assert(field_models(detail@) =~= cascade_output(*result, *times, include_embedding).detail);
    smaller_output(Output { compressed: join_texts(&texts, " "), source: "cascade", detail }, text)
}

// ---------------------------------------------------------------------------
// The report
// ---------------------------------------------------------------------------

/// The fields with others put in.
pub open spec fn with_fields(
    fields: Seq<(Seq<char>, JsonModel)>,
    more: Seq<(Seq<char>, JsonModel)>,
) -> Seq<(Seq<char>, JsonModel)>
    decreases more.len(),
{
    if more.len() == 0 {
        fields
    } else {
        with_field(with_fields(fields, more.drop_last()), more.last().0, more.last().1)
    }
}

/// The five fields that every report has.
pub open spec fn report_fields(text: Seq<char>, kind: KindModel, o: OutputModel) -> Seq<
    (Seq<char>, JsonModel),
> {
    seq![
        ("chars_after"@, JsonModel::Int(byte_len(o.compressed) as int)),
        ("chars_before"@, JsonModel::Int(byte_len(text) as int)),
        ("compressed"@, JsonModel::Text(o.compressed)),
        ("kind"@, JsonModel::Text(kind_text(kind))),
        ("source"@, JsonModel::Text(o.source)),
    ]
}

/// The full report on a text: the five fields and the details of what compressed it.
pub fn build_output(text: &str, kind: &ContentKind, output: Output) -> (out: Vec<(String, Json)>)
    ensures
        field_models(out@) == with_fields(
            report_fields(text@, kind@, output@),
            output@.detail,
        ),
{
    let ghost o = output@;
    let Output { compressed, source, detail } = output;
    let name = kind_name(kind);
    let chars_after = bytes_in(compressed.as_str());
    let mut out: Vec<(String, Json)> = vec![
        (copy_str("chars_after"), count_value(chars_after)),
        (copy_str("chars_before"), count_value(bytes_in(text))),
        (copy_str("compressed"), Json::Text(compressed)),
        (copy_str("kind"), Json::Text(name)),
        (copy_str("source"), text_value(source)),
    ];
    let ghost base = report_fields(text@, kind@, o);
    assert(field_models(out@) =~= base);
    let ghost more = field_models(detail@);
    let mut i: usize = 0;
    assert(more.take(0) =~= seq![]);
    while i < detail.len()
        invariant
            i <= detail@.len(),
            more == field_models(detail@),
            field_models(out@) == with_fields(base, more.take(i as int)),
        decreases detail.len() - i,
    {
        assert(more.take(i + 1).drop_last() =~= more.take(i as int));
        assert(more.take(i + 1).last() == (detail@[i as int].0@, detail@[i as int].1@));
        set_field(&mut out, copy_str(detail[i].0.as_str()), detail[i].1.copy());
        i = i + 1;
    }
    assert(more.take(more.len() as int) =~= more);
    out
}

proof fn lemma_with_fields_keeps(
    fields: Seq<(Seq<char>, JsonModel)>,
    more: Seq<(Seq<char>, JsonModel)>,
    key: Seq<char>,
)
    requires
        forall|i: int| 0 <= i < more.len() ==> (#[trigger] more[i]).0 != key,
    ensures
        field(with_fields(fields, more), key) == field(fields, key),
    decreases more.len(),
{
    if more.len() > 0 {
        assert forall|i: int| 0 <= i < more.drop_last().len() implies (
        #[trigger] more.drop_last()[i]).0 != key by {
            assert(more.drop_last()[i] == more[i]);
        }
        lemma_with_fields_keeps(fields, more.drop_last(), key);
        assert(more[more.len() - 1].0 != key);
        lemma_with_other_field(
            with_fields(fields, more.drop_last()),
            more.last().0,
            more.last().1,
            key,
        );
    }
}

/// How much a level keeps: the higher, the more.
pub open spec fn caution(level: Level) -> int {
    match level {
        Level::Conservative => 2,
        Level::Default => 1,
        Level::Aggressive => 0,
    }
}

/// The more cautious of two levels asks sentences to be more alike before one goes, and every limit on
/// what is kept is higher.
pub proof fn cautious_levels_keep_more(a: Level, b: Level)
    requires
        caution(a) > caution(b),
    ensures
        paraphrase_percent(a) > paraphrase_percent(b),
        diff_config(a).max_context_lines > diff_config(b).max_context_lines,
        diff_config(a).max_hunks_per_file > diff_config(b).max_hunks_per_file,
        diff_config(a).max_files > diff_config(b).max_files,
        log_config(a).max_errors > log_config(b).max_errors,
        log_config(a).max_warnings > log_config(b).max_warnings,
        log_config(a).context_lines > log_config(b).context_lines,
        log_config(a).max_total_lines > log_config(b).max_total_lines,
        json_config(a).keep_edge > json_config(b).keep_edge,
{
}

/// Each of the five fields is in the report with its value, unless a detail has the same name.
pub proof fn report_has_its_fields(text: Seq<char>, kind: KindModel, o: OutputModel, k: int)
    requires
        0 <= k < 5,
        forall|i: int|
            0 <= i < o.detail.len() ==> (#[trigger] o.detail[i]).0 != report_fields(
                text,
                kind,
                o,
            )[k].0,
    ensures
        field(
            with_fields(report_fields(text, kind, o), o.detail),
            report_fields(text, kind, o)[k].0,
        ) == Some(report_fields(text, kind, o)[k].1),
{
    reveal_strlit("chars_after");
    reveal_strlit("chars_before");
    reveal_strlit("compressed");
    reveal_strlit("kind");
    reveal_strlit("source");
    let fields = report_fields(text, kind, o);
    lemma_with_fields_keeps(fields, o.detail, fields[k].0);
    assert("chars_after"@.len() == 11);
    assert("chars_before"@.len() == 12);
    assert("compressed"@.len() == 10);
    assert("kind"@.len() == 4);
    assert("source"@.len() == 6);
    assert forall|j: int| 0 <= j < k implies (#[trigger] fields[j]).0 != fields[k].0 by {}
    lemma_field_at(fields, fields[k].0, k);
}

// ---------------------------------------------------------------------------
// Many texts at once
// ---------------------------------------------------------------------------

/// An item: its id, its text, whether punctuation may be put in, and whether embeddings are
/// reported.
pub open spec fn batch_item(item: JsonModel) -> Option<(Seq<char>, Seq<char>, bool, bool)> {
    match (item.get_text("id"@), item.get_text("text"@)) {
        (Some(id), Some(text)) => Some(
            (
                id,
                text,
                item.get_bool("restore_punctuation"@) != Some(false),
                item.get_bool("include_embedding"@) == Some(true),
            ),
        ),
        _ => None,
    }
}

/// What is said of an item without an id or a text.
pub open spec fn missing_field(i: int, item: JsonModel) -> Seq<char> {
    "--batch item "@ + dec(i as nat) + (if item.get_text("id"@) is None {
        ": missing string field \"id\""@
    } else {
        ": missing string field \"text\""@
    })
}

/// The items, or what is wrong with the first that is not one.
pub open spec fn batch_items(items: Seq<JsonModel>, from: int) -> Result<
    Seq<(Seq<char>, Seq<char>, bool, bool)>,
    Seq<char>,
>
    decreases items.len() - from,
{
    if from < 0 || from >= items.len() {
        Ok(seq![])
    } else {
        match batch_item(items[from]) {
            None => Err(missing_field(from, items[from])),
            Some(first) => match batch_items(items, from + 1) {
                Ok(rest) => Ok(seq![first] + rest),
                Err(e) => Err(e),
            },
        }
    }
}

pub open spec fn batch_of(raw: Seq<char>) -> Result<
    Seq<(Seq<char>, Seq<char>, bool, bool)>,
    Seq<char>,
> {
    match json_parse(raw) {
        None => Err("--batch stdin must be valid JSON: "@ + json_error(raw)),
        Some(JsonModel::Array(items)) => batch_items(items, 0),
        Some(_) => Err("--batch stdin must be a JSON array"@),
    }
}

pub open spec fn item_views(v: Seq<(String, String, bool, bool)>) -> Seq<
    (Seq<char>, Seq<char>, bool, bool),
> {
    v.map_values(|t: (String, String, bool, bool)| (t.0@, t.1@, t.2, t.3))
}

pub open spec fn batch_view(r: Result<Vec<(String, String, bool, bool)>, String>) -> Result<
    Seq<(Seq<char>, Seq<char>, bool, bool)>,
    Seq<char>,
> {
    match r {
        Ok(v) => Ok(item_views(v@)),
        Err(e) => Err(e@),
    }
}

fn read_item(item: &Json) -> (r: Option<(String, String, bool, bool)>)
    ensures
        r is Some <==> batch_item(item@) is Some,
        r matches Some(t) ==> batch_item(item@) == Some((t.0@, t.1@, t.2, t.3)),
{
    match (item.get_text("id"), item.get_text("text")) {
        (Some(id), Some(text)) => {
            let restore = match item.get_bool("restore_punctuation") {
                Some(b) => b,
                None => true,
            };
            let embed = match item.get_bool("include_embedding") {
                Some(b) => b,
                None => false,
            };
            Some((copy_str(id), copy_str(text), restore, embed))
        },
        _ => None,
    }
}

fn read_items(items: &Vec<Json>) -> (r: Result<Vec<(String, String, bool, bool)>, String>)
    ensures
        batch_view(r) == batch_items(models(items@), 0),
{
    let ghost all = models(items@);
    let ghost whole = batch_items(all, 0);
    let mut out: Vec<(String, String, bool, bool)> = Vec::new();
    let mut i: usize = 0;
    assert(item_views(out@) =~= seq![]);
    proof {
        match whole {
            Ok(v) => {
                assert(item_views(out@) + v =~= v);
            },
            Err(_) => {},
        }
    }
    while i < items.len()
        invariant
            i <= items@.len(),
            all == models(items@),
            whole == (match batch_items(all, i as int) {
                Ok(rest) => Ok(item_views(out@) + rest),
                Err(e) => Err::<Seq<(Seq<char>, Seq<char>, bool, bool)>, Seq<char>>(e),
            }),
            whole == batch_items(all, 0),
        decreases items.len() - i,
    {
        assert(all[i as int] == items@[i as int]@);
        let item = &items[i];
        match read_item(item) {
            Some(t) => {
                let ghost v = (t.0@, t.1@, t.2, t.3);
                let ghost have = item_views(out@);
                assert(item_views(out@.push(t)) =~= have.push(v));
                proof {
                    match batch_items(all, i + 1) {
                        Ok(rest) => {
                            assert(have + (seq![v] + rest) =~= have.push(v) + rest);
                        },
                        Err(_) => {},
                    }
                }
                out.push(t);
            },
            None => {
                let mut message = copy_str("--batch item ");
                let number = decimal_usize(i);
                message.append(number.as_str());
                if item.get_text("id").is_none() {
                    message.append(": missing string field \"id\"");
                } else {
                    message.append(": missing string field \"text\"");
                }
                return Err(message);
            },
        }
        i = i + 1;
    }
    assert(item_views(out@) + seq![] =~= item_views(out@));
    Ok(out)
}

/// The items of a batch: a JSON array of objects with an id and a text.
pub fn parse_batch_items(raw: &str) -> (r: Result<Vec<(String, String, bool, bool)>, String>)
    ensures
        batch_view(r) == batch_of(raw@),
{
    broadcast use group_json_models;

    match parse_json(raw) {
        None => {
            let mut message = copy_str("--batch stdin must be valid JSON: ");
            let error = parse_error(raw);
            message.append(error.as_str());
            Err(message)
        },
        Some(Json::Array(items)) => read_items(&items),
        Some(_) => Err(copy_str("--batch stdin must be a JSON array")),
    }
}

// ---------------------------------------------------------------------------
// Laws
// ---------------------------------------------------------------------------

/// The shorter of what was made of a text and the text, which stays where both take as many bytes.
pub open spec fn shorter(made: Seq<char>, text: Seq<char>) -> Seq<char> {
    if byte_len(text) <= byte_len(made) {
        text
    } else {
        made
    }
}

/// JSON and search results go to their own compressors, whatever their size.
pub proof fn arrays_and_results_are_compressed(text: Seq<char>, level: Level, method: DedupeMethod)
    ensures
        ({
            let step = routed(text, KindModel::Json, level, method);
            let array = compressed_array(text, seq![], json_config(level));
            let o = step->Done_0;
            &&& step is Done
            &&& array is None ==> o.compressed == text && o.source == "json-passthrough"@ && o.detail.len()
                == 0
            &&& array is Some ==> o.compressed == shorter((array->0).content, text)
            &&& array is Some && (array->0).rendering == JsonRendering::RowSelected ==> o.source
                == "json"@
            &&& array is Some && (array->0).rendering == JsonRendering::CsvSchema ==> o.source
                == "json-csv-schema"@
            &&& array is Some ==> o.detail == seq![
                ("elements_after"@, JsonModel::Int((array->0).compressed as int)),
                ("elements_before"@, JsonModel::Int((array->0).original as int)),
            ]
        }),
        ({
            let step = routed(text, KindModel::SearchResults, level, method);
            let lines = search_output(split_lines(text));
            let o = step->Done_0;
            &&& step is Done
            &&& o.compressed == shorter(join(lines, "\n"@), text)
            &&& o.source == "search"@
            &&& o.detail == seq![
                ("lines_after"@, JsonModel::Int(lines.len() as int)),
                ("lines_before"@, JsonModel::Int(split_lines(text).len() as int)),
            ]
        }),
{
}

/// Of a log long runs of a line collapse; where more than two thousand bytes are left, its signals are
/// looked for, and where there are some, only what is close to them stays.
pub proof fn logs_are_compressed(text: Seq<char>, level: Level, method: DedupeMethod)
    ensures
        ({
            let step = routed(text, KindModel::Log, level, method);
            let deduped = terminated(collapse_runs(split_lines(text)));
            let lines = split_lines(deduped);
            let o = step->Done_0;
            let kept = kept_indexes(lines, log_config(level)).len() as int;
            &&& step is Done
            &&& byte_len(deduped) <= 2000 ==> o.compressed == shorter(deduped, text) && o.source
                == "dedup"@ && o.detail.len() == 0
            &&& byte_len(deduped) > 2000 ==> o.source == "dedup+log"@ && o.detail.len() == 2
                && o.detail[0].0 == "lines_after"@ && o.detail[1] == (
                "lines_before"@,
                JsonModel::Int(lines.len() as int),
            )
            &&& byte_len(deduped) > 2000 && signal_indexes(lines, log_config(level)).len() == 0
                ==> o.compressed == shorter(deduped, text) && o.detail[0].1 == JsonModel::Int(
                lines.len() as int,
            )
            &&& byte_len(deduped) > 2000 && signal_indexes(lines, log_config(level)).len() > 0
                ==> o.compressed == shorter(join(log_output(lines, log_config(level)), "\n"@), text)
                && o.detail[0].1 == JsonModel::Int(kept)
        }),
{
}

/// A diff of more than two thousand bytes is compressed, and a shorter one stays.
pub proof fn diffs_are_compressed(text: Seq<char>, level: Level, method: DedupeMethod)
    ensures
        ({
            let step = routed(text, KindModel::Diff, level, method);
            let made = compressed_diff(text, ""@, diff_config(level));
            let o = step->Done_0;
            &&& step is Done
            &&& byte_len(text) <= 2000 ==> o.compressed == text && o.source == "passthrough"@
                && o.detail.len() == 0
            &&& byte_len(text) > 2000 ==> o.compressed == shorter(made.0, text) && o.source == "diff"@
                && o.detail == seq![
                ("files_affected"@, JsonModel::Int(made.1 as int)),
                ("hunks_removed"@, JsonModel::Int(made.2 as int)),
            ]
        }),
{
}

/// Of any other text long runs of a line collapse. Where more than two thousand bytes of plain text are
/// left, they are handed to a model, by the method that is asked for.
pub proof fn other_texts_are_deduped(text: Seq<char>, label: Seq<char>, level: Level)
    ensures
        ({
            let deduped = terminated(collapse_runs(split_lines(text)));
            let done = StepModel::Done(
                OutputModel { compressed: shorter(deduped, text), source: "dedup"@, detail: seq![] },
            );
            &&& byte_len(deduped) <= 2000 ==> routed(
                text,
                KindModel::PlainText,
                level,
                DedupeMethod::MiniLM,
            ) == done && routed(text, KindModel::PlainText, level, DedupeMethod::Cascade) == done
            &&& byte_len(deduped) > 2000 ==> routed(
                text,
                KindModel::PlainText,
                level,
                DedupeMethod::MiniLM,
            ) == StepModel::Semantic(deduped) && routed(
                text,
                KindModel::PlainText,
                level,
                DedupeMethod::Cascade,
            ) == StepModel::Cascade(deduped)
            &&& routed(text, KindModel::Other(label), level, DedupeMethod::MiniLM) == done
            &&& routed(text, KindModel::Other(label), level, DedupeMethod::Cascade) == done
        }),
{
}

/// The limits of the levels. The fewest of each stay under the aggressive one, and the others allow two
/// and four times as many files, hunks and lines.
pub proof fn levels_have_their_limits(level: Level)
    ensures
        ({
            let d = diff_config(level);
            let l = log_config(level);
            let j = json_config(level);
            &&& level == Level::Conservative ==> paraphrase_percent(level) == 90 && d.max_context_lines
                == 4 && d.max_hunks_per_file == 20 && d.max_files == 40 && l.max_errors == 20
                && l.max_warnings == 10 && l.context_lines == 4 && l.max_total_lines == 200
                && j.keep_edge == 10
            &&& level == Level::Default ==> paraphrase_percent(level) == 80 && d.max_context_lines == 2
                && d.max_hunks_per_file == 10 && d.max_files == 20 && l.max_errors == 10
                && l.max_warnings == 5 && l.context_lines == 2 && l.max_total_lines == 100
                && j.keep_edge == 5
            &&& level == Level::Aggressive ==> paraphrase_percent(level) == 70 && d.max_context_lines
                == 1 && d.max_hunks_per_file == 5 && d.max_files == 10 && l.max_errors == 5
                && l.max_warnings == 2 && l.context_lines == 1 && l.max_total_lines == 50
                && j.keep_edge == 2
            &&& j.lossless_min_savings_percent == 30
            &&& j.invariants.max_enum_values == 5
            &&& j.invariants.max_value_len == 24
            &&& j.invariants.max_marker_bytes == 160
        }),
{
}

/// An output tells of line numbers that were taken off and of blobs that were removed, and of neither
/// where there was none. Its text, its source and its other details stay.
pub proof fn removals_are_told(o: OutputModel, line_numbers: bool, blobs: nat, other: Seq<char>)
    requires
        ascending(o.detail),
        other != "line_numbers_stripped"@,
        other != "base64_blobs_removed"@,
    ensures
        ({
            let a = annotated(o, line_numbers, blobs);
            &&& a.compressed == o.compressed
            &&& a.source == o.source
            &&& line_numbers ==> field(a.detail, "line_numbers_stripped"@) == Some(JsonModel::Bool(true))
            &&& !line_numbers ==> field(a.detail, "line_numbers_stripped"@) == field(
                o.detail,
                "line_numbers_stripped"@,
            )
            &&& blobs > 0 ==> field(a.detail, "base64_blobs_removed"@) == Some(
                JsonModel::Int(blobs as int),
            )
            &&& blobs == 0 ==> field(a.detail, "base64_blobs_removed"@) == field(
                o.detail,
                "base64_blobs_removed"@,
            )
            &&& field(a.detail, other) == field(o.detail, other)
        }),
{
    reveal_strlit("line_numbers_stripped");
    reveal_strlit("base64_blobs_removed");
    let l = "line_numbers_stripped"@;
    let b = "base64_blobs_removed"@;
    assert(l.len() != b.len());
    let yes = JsonModel::Bool(true);
    let n = JsonModel::Int(blobs as int);
    lemma_with_field(o.detail, l, yes);
    lemma_with_other_field(o.detail, l, yes, other);
    lemma_with_other_field(o.detail, l, yes, b);
    let first = if line_numbers {
        with_field(o.detail, l, yes)
    } else {
        o.detail
    };
    lemma_with_field(first, b, n);
    lemma_with_other_field(first, b, n, other);
    lemma_with_other_field(first, b, n, l);
}

/// The stories are the texts of the kept sentences that tell one, in their sequence.
pub proof fn stories_are_narrative(kept: Seq<KeptModel>)
    ensures
        stories(kept) == kept.filter(
            |k: KeptModel| k.shape == SentenceShape::Narrative,
        ).map_values(|k: KeptModel| k.text),
    decreases kept.len(),
{
    reveal(Seq::filter);
    let telling = |k: KeptModel| k.shape == SentenceShape::Narrative;
    let text = |k: KeptModel| k.text;
    if kept.len() > 0 {
        stories_are_narrative(kept.drop_last());
    }
    assert(stories(kept) =~= kept.filter(telling).map_values(text));
}

/// Each kept sentence is reported with its text, its index and its shape, and with its embedding where
/// that is asked for and there is one; each dropped one with the sentence that it goes for.
pub proof fn sentences_are_reported(r: DedupResult, asked: bool, k: int)
    ensures
        ({
            let o = semantic_output(r, asked);
            let kept = kept_models(r.kept@);
            let drops = drop_models(r.drops@);
            let items = o.detail[1].1->Array_0;
            let gone = o.detail[0].1->Array_0;
            &&& o.compressed == r.content@
            &&& o.source == "dedup+semantic"@
            &&& o.detail.len() == 7
            &&& o.detail[0].0 == "drops"@ && o.detail[0].1 is Array && gone.len() == drops.len()
            &&& o.detail[1].0 == "kept"@ && o.detail[1].1 is Array && items.len() == kept.len()
            &&& o.detail[2] == ("punctuation_restored"@, JsonModel::Bool(r.punctuation_restored))
            &&& o.detail[3] == ("sentences_after"@, JsonModel::Int(r.kept_sentences as int))
            &&& o.detail[4] == ("sentences_before"@, JsonModel::Int(r.original_sentences as int))
            &&& o.detail[5].0 == "stories"@
            &&& o.detail[5].1 == JsonModel::Array(
                stories(kept).map_values(|t: Seq<char>| JsonModel::Text(t)),
            )
            &&& o.detail[6].0 == "summary"@
            &&& o.detail[6].1 == JsonModel::Array(
                views(r.summary@).map_values(|t: Seq<char>| JsonModel::Text(t)),
            )
            &&& 0 <= k < kept.len() ==> {
                let told = items[k]->Object_0;
                let n = told.len();
                &&& items[k] is Object
                &&& n == (if asked && kept[k].embedding is Some {
                    4nat
                } else {
                    3nat
                })
                &&& told[n - 3] == ("index"@, JsonModel::Int(kept[k].index))
                &&& kept[k].shape == SentenceShape::Narrative ==> told[n - 2] == (
                    "shape"@,
                    JsonModel::Text("narrative"@),
                )
                &&& kept[k].shape == SentenceShape::Concept ==> told[n - 2] == (
                    "shape"@,
                    JsonModel::Text("concept"@),
                )
                &&& told[n - 1] == ("text"@, JsonModel::Text(kept[k].text))
                &&& n == 4 ==> told[0] == ("embedding"@, JsonModel::Array(kept[k].embedding->0))
            }
            &&& 0 <= k < drops.len() ==> gone[k] == JsonModel::Object(
                seq![
                    ("dropped_index"@, JsonModel::Int(drops[k].dropped)),
                    ("kept_index"@, JsonModel::Int(drops[k].kept)),
                    ("similarity"@, drops[k].similarity),
                ],
            )
        }),
{
}

/// What a cascade keeps is joined by spaces and reported one by one, with the embedding where that is
/// asked for and there is one.
pub proof fn cascades_are_reported(r: CascadeResult, times: StageTimes, asked: bool, k: int)
    ensures
        ({
            let o = cascade_output(r, times, asked);
            let kept = kept_list(r.kept@);
            let items = o.detail[0].1->Array_0;
            &&& o.compressed == join(Seq::new(kept.len(), |i: int| kept[i].text), " "@)
            &&& o.source == "cascade"@
            &&& o.detail.len() == 6
            &&& o.detail[0].0 == "kept"@ && o.detail[0].1 is Array && items.len() == kept.len()
            &&& o.detail[1] == ("kept_count"@, JsonModel::Int(kept.len() as int))
            &&& o.detail[2] == ("removed_count"@, JsonModel::Int(r.removed_count as int))
            &&& o.detail[3] == ("stage1_ms"@, times.stage1_ms@)
            &&& o.detail[4] == ("stage2_ms"@, times.stage2_ms@)
            &&& o.detail[5] == ("stage3_ms"@, times.stage3_ms@)
            &&& 0 <= k < kept.len() && asked && kept[k].embedding is Some ==> items[k]
                == JsonModel::Object(
                seq![
                    ("embedding"@, JsonModel::Array(kept[k].embedding->0)),
                    ("text"@, JsonModel::Text(kept[k].text)),
                ],
            )
            &&& 0 <= k < kept.len() && !(asked && kept[k].embedding is Some) ==> items[k]
                == JsonModel::Object(seq![("text"@, JsonModel::Text(kept[k].text))])
        }),
{
    let kept = kept_list(r.kept@);
    assert(kept.map_values(|k: KeptText| k.text) =~= Seq::new(kept.len(), |i: int| kept[i].text));
    if 0 <= k < kept.len() {
        let text = ("text"@, JsonModel::Text(kept[k].text));
        if asked && kept[k].embedding is Some {
            let e = ("embedding"@, JsonModel::Array(kept[k].embedding->0));
            assert(seq![e] + seq![text] =~= seq![e, text]);
        } else {
            assert(Seq::<(Seq<char>, JsonModel)>::empty() + seq![text] =~= seq![text]);
        }
    }
}

/// The item has an id and a text.
pub open spec fn is_complete(item: JsonModel) -> bool {
    item.get_text("id"@) is Some && item.get_text("text"@) is Some
}

/// A batch is read where every item has an id and a text; punctuation may be put in unless the item
/// forbids it, and embeddings are reported where it asks for them.
pub proof fn complete_items_are_read(items: Seq<JsonModel>, from: int, i: int)
    requires
        0 <= from <= items.len(),
        forall|k: int| from <= k < items.len() ==> is_complete(#[trigger] items[k]),
    ensures
        batch_items(items, from) is Ok,
        (batch_items(items, from)->Ok_0).len() == items.len() - from,
        from <= i < items.len() ==> ({
            let read = (batch_items(items, from)->Ok_0)[i - from];
            &&& read.0 == items[i].get_text("id"@)->0
            &&& read.1 == items[i].get_text("text"@)->0
            &&& read.2 <==> items[i].get_bool("restore_punctuation"@) != Some(false)
            &&& read.3 <==> items[i].get_bool("include_embedding"@) == Some(true)
        }),
    decreases items.len() - from,
{
    if from < items.len() {
        assert(is_complete(items[from]));
        complete_items_are_read(items, from + 1, i);
        let rest = batch_items(items, from + 1)->Ok_0;
        let all = batch_items(items, from)->Ok_0;
        if from < i < items.len() {
            assert(all[i - from] == rest[i - from - 1]);
        }
    }
}

/// The first item without an id or a text is named with what it lacks.
pub proof fn incomplete_items_are_named(items: Seq<JsonModel>, from: int, bad: int)
    requires
        0 <= from <= bad < items.len(),
        forall|i: int| from <= i < bad ==> is_complete(#[trigger] items[i]),
        !is_complete(items[bad]),
    ensures
        items[bad].get_text("id"@) is None ==> batch_items(items, from) == Err::<
            Seq<(Seq<char>, Seq<char>, bool, bool)>,
            Seq<char>,
        >("--batch item "@ + dec(bad as nat) + ": missing string field \"id\""@),
        items[bad].get_text("id"@) is Some ==> batch_items(items, from) == Err::<
            Seq<(Seq<char>, Seq<char>, bool, bool)>,
            Seq<char>,
        >("--batch item "@ + dec(bad as nat) + ": missing string field \"text\""@),
    decreases bad - from,
{
    if from < bad {
        assert(is_complete(items[from]));
        incomplete_items_are_named(items, from + 1, bad);
    }
}

/// A batch is a JSON array. Any other JSON is refused, and so is a text that is none.
pub proof fn batches_are_arrays(raw: Seq<char>)
    ensures
        json_parse(raw) matches Some(JsonModel::Array(items)) ==> batch_of(raw) == batch_items(items, 0),
        json_parse(raw) is Some && !(json_parse(raw)->0 is Array) ==> batch_of(raw) == Err::<
            Seq<(Seq<char>, Seq<char>, bool, bool)>,
            Seq<char>,
        >("--batch stdin must be a JSON array"@),
        json_parse(raw) is None ==> batch_of(raw) == Err::<
            Seq<(Seq<char>, Seq<char>, bool, bool)>,
            Seq<char>,
        >("--batch stdin must be valid JSON: "@ + json_error(raw)),
{
}

/// What is handed out is never larger than the text: what was made of it where that takes fewer bytes, and
/// else the text. Without an answer of the model that is what the model was asked about.
pub proof fn nothing_gets_larger(
    o: OutputModel,
    result: Option<DedupResult>,
    deduped: Seq<char>,
    text: Seq<char>,
    asked: bool,
)
    ensures
        no_larger(o, text).compressed == shorter(o.compressed, text),
        no_larger(o, text).source == o.source,
        no_larger(o, text).detail == o.detail,
        byte_len(no_larger(o, text).compressed) <= byte_len(text),
        result is None ==> answered(result, deduped, asked) == (OutputModel {
            compressed: deduped,
            source: "error"@,
            detail: seq![],
        }),
        result is Some ==> answered(result, deduped, asked) == semantic_output(result->0, asked),
{
}

/// Data URIs are taken out first, and long runs of encoded data from what is left; both are counted.
pub proof fn blobs_are_counted(text: Seq<char>)
    ensures
        without_blobs(text) == without_matches(
            Pattern::StandaloneBase64,
            without_matches(Pattern::DataUri, text),
        ),
        blob_count(text) == Pattern::DataUri.spans_in(text).len() + Pattern::StandaloneBase64.spans_in(
            without_matches(Pattern::DataUri, text),
        ).len(),
{
}

} // verus!
