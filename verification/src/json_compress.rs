//! Compression of JSON arrays: equal elements once, as rows where that is much shorter, else the ends
//! of the array and what is worth keeping of its middle.
use crate::compaction::{all_flat, csv_text, render_csv_schema};
use crate::error_keywords::{has_error_word, mentions_error};
use crate::invariants::{describe, description, unit_models, InvariantConfig, Unit, UnitModel};
use crate::json::{
    equal_values_are_the_same, group_json_models, json_equal, json_parse, json_raw_elements,
    json_raw_fields, json_string, json_text, model, models, no_raw_names, pair_views, parse_json,
    parse_string, raw_elements, raw_fields, reads_back, same_but_fractions, same_json, well_formed,
    write_json, Json, JsonModel, MAX_DEPTH,
};
use crate::order::{arranged, ascending_below, ints, is_subsequence};
use crate::text::{
    byte_len, bytes_in, copy_str, dec, decimal_usize, lemma_views_push, lower, lowercase,
    starts_with, trim, trim_text, views,
};
use vstd::prelude::*;

verus! {

broadcast use {group_json_models, lemma_views_push};

pub struct JsonCompressConfig {
    /// How many elements stay at either end.
    pub keep_edge: usize,
    pub invariants: InvariantConfig,
    /// How many percent rows must save to be used.
    pub lossless_min_savings_percent: u64,
}

impl Default for JsonCompressConfig {
    fn default() -> (c: JsonCompressConfig)
        ensures
            c.keep_edge == 5,
            c.invariants.max_enum_values == 5,
            c.invariants.max_value_len == 24,
            c.invariants.max_marker_bytes == 160,
            c.lossless_min_savings_percent == 30,
    {
        JsonCompressConfig {
            keep_edge: 5,
            invariants: InvariantConfig::default(),
            lossless_min_savings_percent: 30,
        }
    }
}

#[derive(Debug, Clone, Copy, PartialEq, Eq, Structural)]
pub enum JsonRendering {
    RowSelected,
    CsvSchema,
}

pub struct JsonCompressResult {
    pub original_elements: usize,
    pub compressed_elements: usize,
    pub content: String,
    pub rendering: JsonRendering,
}

// ---------------------------------------------------------------------------
// Equal elements
// ---------------------------------------------------------------------------

/// Whether one of the elements at the indexes is equal to `m`.
pub open spec fn seen_before(elements: Seq<JsonModel>, indexes: Seq<int>, m: JsonModel) -> bool {
    exists|k: int| 0 <= k < indexes.len() && json_equal(elements[#[trigger] indexes[k]], m)
}

/// The indexes of the first `n` elements that are equal to none before.
pub open spec fn first_indexes(elements: Seq<JsonModel>, n: nat) -> Seq<int>
    decreases n,
{
    if n == 0 {
        seq![]
    } else {
        let before = first_indexes(elements, (n - 1) as nat);
        if seen_before(elements, before, elements[n - 1]) {
            before
        } else {
            before.push(n - 1)
        }
    }
}

proof fn lemma_first_indexes(elements: Seq<JsonModel>, n: nat)
    requires
        n <= elements.len(),
    ensures
        forall|k: int|
            0 <= k < first_indexes(elements, n).len() ==> 0 <= #[trigger] first_indexes(elements, n)[k] < n,
        first_indexes(elements, n).len() <= n,
    decreases n,
{
    if n > 0 {
        lemma_first_indexes(elements, (n - 1) as nat);
        let before = first_indexes(elements, (n - 1) as nat);
        let out = first_indexes(elements, n);
        assert forall|k: int| 0 <= k < out.len() implies 0 <= #[trigger] out[k] < n by {
            if k < before.len() {
                assert(out[k] == before[k]);
            }
        }
    }
}

fn find_first(elements: &Vec<Json>) -> (out: Vec<usize>)
    ensures
        ints(out@) == first_indexes(models(elements@), elements@.len()),
        forall|k: int| 0 <= k < out@.len() ==> #[trigger] out@[k] < elements@.len(),
{
    let ghost ms = models(elements@);
    let mut out: Vec<usize> = Vec::new();
    let mut i: usize = 0;
    assert(ints(out@) =~= first_indexes(ms, 0));
    while i < elements.len()
        invariant
            i <= elements@.len(),
            ms == models(elements@),
            ints(out@) == first_indexes(ms, i as nat),
            forall|k: int| 0 <= k < out@.len() ==> #[trigger] out@[k] < i,
        decreases elements.len() - i,
    {
        let ghost before = ints(out@);
        let mut seen = false;
        let mut k: usize = 0;
        while k < out.len() && !seen
            invariant
                k <= out@.len(),
                i < elements@.len(),
                ms == models(elements@),
                before == ints(out@),
                forall|k: int| 0 <= k < out@.len() ==> #[trigger] out@[k] < i,
                seen ==> seen_before(ms, before, ms[i as int]),
                !seen ==> forall|j: int|
                    0 <= j < k ==> !json_equal(ms[#[trigger] before[j]], ms[i as int]),
            decreases out.len() - k, if seen { 0int } else { 1int },
        {
            assert(before[k as int] == out@[k as int]);
            if same_json(&elements[out[k]], &elements[i]) {
                seen = true;
            } else {
                k = k + 1;
            }
        }
        if !seen {
            out.push(i);
            assert(ints(out@) =~= before.push(i as int));
        }
        i = i + 1;
    }
    out
}

fn copy_at(elements: &Vec<Json>, indexes: &Vec<usize>) -> (out: Vec<Json>)
    requires
        forall|k: int| 0 <= k < indexes@.len() ==> #[trigger] indexes@[k] < elements@.len(),
    ensures
        models(out@) == arranged(models(elements@), ints(indexes@)),
{
    let mut out: Vec<Json> = Vec::new();
    let mut i: usize = 0;
    while i < indexes.len()
        invariant
            i <= indexes@.len(),
            forall|k: int| 0 <= k < indexes@.len() ==> #[trigger] indexes@[k] < elements@.len(),
            out@.len() == i,
            forall|j: int| 0 <= j < i ==> model(#[trigger] out@[j]) == model(elements@[indexes@[j] as int]),
        decreases indexes.len() - i,
    {
        assert(indexes@[i as int] < elements@.len());
        out.push(elements[indexes[i]].copy());
        i = i + 1;
    }
    assert(models(out@) =~= arranged(models(elements@), ints(indexes@)));
    out
}

// ---------------------------------------------------------------------------
// What stays of the middle
// ---------------------------------------------------------------------------

/// The first and the last `edge` of `n` places.
pub open spec fn is_edge(p: int, n: int, edge: int) -> bool {
    p < edge || p >= n - edge
}

/// Of the places of interest, in their sequence, those between the ends, as many as the limit allows.
pub open spec fn chosen_places(interest: Seq<int>, n: int, edge: int) -> Seq<int>
    decreases interest.len(),
{
    if interest.len() == 0 {
        seq![]
    } else {
        let before = chosen_places(interest.drop_last(), n, edge);
        let p = interest.last();
        if is_edge(p, n, edge) || before.contains(p) || before.len() >= 2 * edge {
            before
        } else {
            before.push(p)
        }
    }
}

pub open spec fn is_kept(interest: Seq<int>, n: int, edge: int, p: int) -> bool {
    is_edge(p, n, edge) || chosen_places(interest, n, edge).contains(p)
}

/// An object in whose text an error word occurs.
pub open spec fn is_error_item(m: JsonModel) -> bool {
    m is Object && has_error_word(lower(json_text(m)))
}

/// The places of the first `n` items that tell of an error.
pub open spec fn error_places(items: Seq<JsonModel>, n: nat) -> Seq<int>
    decreases n,
{
    if n == 0 {
        seq![]
    } else {
        let before = error_places(items, (n - 1) as nat);
        if is_error_item(items[n - 1]) {
            before.push(n - 1)
        } else {
            before
        }
    }
}

fn find_errors(items: &Vec<Json>) -> (out: Vec<usize>)
    ensures
        ints(out@) == error_places(models(items@), items@.len()),
{
    let ghost ms = models(items@);
    let mut out: Vec<usize> = Vec::new();
    let mut i: usize = 0;
    assert(ints(out@) =~= error_places(ms, 0));
    while i < items.len()
        invariant
            i <= items@.len(),
            ms == models(items@),
            ints(out@) == error_places(ms, i as nat),
        decreases items.len() - i,
    {
        assert(ms[i as int] == model(items@[i as int]));
        let tells = match &items[i] {
            Json::Object(_) => {
                let text = write_json(&items[i]);
                let low = lowercase(text.as_str());
                mentions_error(low.as_str())
            },
            _ => false,
        };
        if tells {
            let ghost before = out@;
            out.push(i);
            assert(ints(out@) =~= ints(before).push(i as int));
        }
        i = i + 1;
    }
    out
}

fn holds_place(v: &Vec<usize>, p: usize) -> (b: bool)
    ensures
        b == ints(v@).contains(p as int),
{
    let mut i: usize = 0;
    while i < v.len()
        invariant
            i <= v@.len(),
            forall|j: int| 0 <= j < i ==> #[trigger] v@[j] != p,
        decreases v.len() - i,
    {
        if v[i] == p {
            assert(ints(v@)[i as int] == p);
            return true;
        }
        i = i + 1;
    }
    assert forall|j: int| 0 <= j < ints(v@).len() implies ints(v@)[j] != p by {
        assert(ints(v@)[j] == v@[j]);
    }
    false
}

/// Whether each of `n` places stays.
pub fn select_kept_positions(n: usize, keep_edge: usize, interest: &Vec<usize>) -> (kept: Vec<bool>)
    requires
        keep_edge * 2 < n,
    ensures
        kept@.len() == n,
        forall|p: int|
            0 <= p < n ==> #[trigger] kept@[p] == is_kept(ints(interest@), n as int, keep_edge as int, p),
{
    let ghost is = ints(interest@);
    let mut chosen: Vec<usize> = Vec::new();
    let mut i: usize = 0;
    assert(is.take(0) =~= seq![]);
    assert(ints(chosen@) =~= chosen_places(is.take(0), n as int, keep_edge as int));
    while i < interest.len()
        invariant
            keep_edge * 2 < n,
            i <= interest@.len(),
            is == ints(interest@),
            ints(chosen@) == chosen_places(is.take(i as int), n as int, keep_edge as int),
        decreases interest.len() - i,
    {
        assert(is.take(i + 1).drop_last() =~= is.take(i as int));
        assert(is.take(i + 1).last() == interest@[i as int]);
        let p: usize = interest[i];
        assert(ints(chosen@).len() == chosen@.len());
        let edge = p < keep_edge || p >= n - keep_edge;
        if !edge && !holds_place(&chosen, p) && chosen.len() < keep_edge * 2 {
            let ghost before = chosen@;
            chosen.push(p);
            assert(ints(chosen@) =~= ints(before).push(p as int));
        }
        i = i + 1;
    }
    assert(is.take(is.len() as int) =~= is);
    let mut kept: Vec<bool> = Vec::new();
    let mut p: usize = 0;
    while p < n
        invariant
            keep_edge * 2 < n,
            p <= n,
            is == ints(interest@),
            ints(chosen@) == chosen_places(is, n as int, keep_edge as int),
            kept@.len() == p,
            forall|q: int|
                0 <= q < p ==> #[trigger] kept@[q] == is_kept(is, n as int, keep_edge as int, q),
        decreases n - p,
    {
        let stays = p < keep_edge || p >= n - keep_edge || holds_place(&chosen, p);
        kept.push(stays);
        p = p + 1;
    }
    kept
}

// ---------------------------------------------------------------------------
// Notes for what was left out
// ---------------------------------------------------------------------------

/// The string that a JSON text is, or else the text.
pub open spec fn shown_value(raw: Seq<char>) -> Seq<char> {
    match json_string(raw) {
        Some(s) => s,
        None => raw,
    }
}

pub open spec fn shown_fields(fs: Seq<(Seq<char>, Seq<char>)>) -> UnitModel {
    Seq::new(fs.len(), |i: int| (fs[i].0, shown_value(fs[i].1)))
}

/// The elements at the indexes that are objects, by their fields.
pub open spec fn dropped_units(raw: Seq<Seq<char>>, indexes: Seq<int>) -> Seq<UnitModel>
    decreases indexes.len(),
{
    if indexes.len() == 0 {
        seq![]
    } else {
        let before = dropped_units(raw, indexes.drop_last());
        let i = indexes.last();
        if 0 <= i < raw.len() {
            match json_raw_fields(raw[i]) {
                Some(fs) => before.push(shown_fields(fs)),
                None => before,
            }
        } else {
            before
        }
    }
}

/// The note for the elements at the indexes: how many they are, and what holds of all of them.
pub open spec fn drop_note(content: Seq<char>, indexes: Seq<int>, config: InvariantConfig) -> Seq<char> {
    let start = "..."@ + dec(indexes.len()) + " more elements omitted"@;
    let facts = match json_raw_elements(trim(content)) {
        Some(raw) => description(dropped_units(raw, indexes), config),
        None => None,
    };
    match facts {
        Some(f) => start + " ("@ + f + ")..."@,
        None => start + "..."@,
    }
}

fn show_fields(fs: &Vec<(String, String)>) -> (out: Vec<(String, String)>)
    ensures
        pair_views(out@) == shown_fields(pair_views(fs@)),
{
    let mut out: Vec<(String, String)> = Vec::new();
    let mut i: usize = 0;
    while i < fs.len()
        invariant
            i <= fs@.len(),
            out@.len() == i,
            forall|j: int|
                0 <= j < i ==> (#[trigger] out@[j]).0@ == fs@[j].0@ && out@[j].1@ == shown_value(fs@[j].1@),
        decreases fs.len() - i,
    {
        let value = match parse_string(fs[i].1.as_str()) {
            Some(s) => s,
            None => fs[i].1.clone(),
        };
        out.push((fs[i].0.clone(), value));
        i = i + 1;
    }
    assert(pair_views(out@) =~= shown_fields(pair_views(fs@)));
    out
}

fn collect_units(raw: &Vec<String>, indexes: &Vec<usize>) -> (out: Vec<Unit>)
    ensures
        unit_models(out@) == dropped_units(views(raw@), ints(indexes@)),
{
    let ghost rs = views(raw@);
    let ghost is = ints(indexes@);
    let mut out: Vec<Unit> = Vec::new();
    let mut i: usize = 0;
    assert(is.take(0) =~= seq![]);
    assert(unit_models(out@) =~= dropped_units(rs, is.take(0)));
    while i < indexes.len()
        invariant
            i <= indexes@.len(),
            rs == views(raw@),
            is == ints(indexes@),
            unit_models(out@) == dropped_units(rs, is.take(i as int)),
        decreases indexes.len() - i,
    {
        assert(is.take(i + 1).drop_last() =~= is.take(i as int));
        assert(is.take(i + 1).last() == indexes@[i as int]);
        let at: usize = indexes[i];
        if at < raw.len() {
            assert(rs[at as int] == raw@[at as int]@);
            match raw_fields(raw[at].as_str()) {
                Some(fs) => {
                    let ghost before = out@;
                    let unit = Unit::new(show_fields(&fs));
                    let ghost um = unit@;
                    out.push(unit);
                    assert(unit_models(out@) =~= unit_models(before).push(um));
                },
                None => {},
            }
        }
        i = i + 1;
    }
    assert(is.take(is.len() as int) =~= is);
    out
}

fn build_marker(content: &str, indexes: &Vec<usize>, config: &InvariantConfig) -> (s: String)
    ensures
        s@ == drop_note(content@, ints(indexes@), *config),
{
    let mut s = copy_str("...");
    let count = decimal_usize(indexes.len());
    s.append(count.as_str());
    s.append(" more elements omitted");
    assert(ints(indexes@).len() == indexes@.len());
    let trimmed = trim_text(content);
    let facts = match raw_elements(trimmed.as_str()) {
        Some(raw) => {
            let units = collect_units(&raw, indexes);
            describe(units.as_slice(), config)
        },
        None => None,
    };
    match facts {
        Some(f) => {
            s.append(" (");
            s.append(f.as_str());
            s.append(")...");
        },
        None => {
            s.append("...");
        },
    }
    s
}

/// The note for the places that were left out since the last that stays, if there are any.
pub open spec fn note_for(
    content: Seq<char>,
    indexes: Seq<int>,
    run: Seq<int>,
    config: InvariantConfig,
) -> Seq<JsonModel> {
    if run.len() == 0 {
        seq![]
    } else {
        seq![JsonModel::Text(drop_note(content, arranged(indexes, run), config))]
    }
}

/// The places from the last that stays among the first `n` on.
pub open spec fn open_run(kept: spec_fn(int) -> bool, n: nat) -> Seq<int>
    decreases n,
{
    if n == 0 || kept(n - 1) {
        seq![]
    } else {
        open_run(kept, (n - 1) as nat).push(n - 1)
    }
}

/// The elements among the first `n` places that stay, with a note before each for what is left out
/// just before it.
pub open spec fn marked_elements(
    content: Seq<char>,
    seen: Seq<JsonModel>,
    indexes: Seq<int>,
    kept: spec_fn(int) -> bool,
    config: InvariantConfig,
    n: nat,
) -> Seq<JsonModel>
    decreases n,
{
    if n == 0 {
        seq![]
    } else {
        let before = marked_elements(content, seen, indexes, kept, config, (n - 1) as nat);
        if kept(n - 1) {
            before + note_for(content, indexes, open_run(kept, (n - 1) as nat), config) + seq![seen[n - 1]]
        } else {
            before
        }
    }
}

/// All elements that stay, with a note for each gap.
pub open spec fn with_notes(
    content: Seq<char>,
    seen: Seq<JsonModel>,
    indexes: Seq<int>,
    kept: spec_fn(int) -> bool,
    config: InvariantConfig,
) -> Seq<JsonModel> {
    marked_elements(content, seen, indexes, kept, config, seen.len()) + note_for(
        content,
        indexes,
        open_run(kept, seen.len()),
        config,
    )
}

fn push_note(
    out: &mut Vec<Json>,
    content: &str,
    indexes: &Vec<usize>,
    run: &Vec<usize>,
    config: &InvariantConfig,
)
    requires
        forall|k: int| 0 <= k < run@.len() ==> #[trigger] run@[k] < indexes@.len(),
    ensures
        models(final(out)@) == models(old(out)@) + note_for(
            content@,
            ints(indexes@),
            ints(run@),
            *config,
        ),
{
    if run.len() == 0 {
        assert(models(out@) + Seq::<JsonModel>::empty() =~= models(out@));
        return ;
    }
    let mut dropped: Vec<usize> = Vec::new();
    let mut i: usize = 0;
    while i < run.len()
        invariant
            i <= run@.len(),
            forall|k: int| 0 <= k < run@.len() ==> #[trigger] run@[k] < indexes@.len(),
            dropped@.len() == i,
            forall|j: int| 0 <= j < i ==> #[trigger] dropped@[j] == indexes@[run@[j] as int],
        decreases run.len() - i,
    {
        assert(run@[i as int] < indexes@.len());
        dropped.push(indexes[run[i]]);
        i = i + 1;
    }
    assert(ints(dropped@) =~= arranged(ints(indexes@), ints(run@)));
    let note = build_marker(content, &dropped, config);
    let ghost before = models(out@);
    let ghost nm = note@;
    out.push(Json::Text(note));
    assert(models(out@) =~= before + seq![JsonModel::Text(nm)]);
}

fn build_output_with_markers(
    content: &str,
    seen: &Vec<Json>,
    indexes: &Vec<usize>,
    kept: &Vec<bool>,
    config: &InvariantConfig,
    Ghost(stays): Ghost<spec_fn(int) -> bool>,
) -> (out: Vec<Json>)
    requires
        kept@.len() == seen@.len() == indexes@.len(),
        forall|p: int| 0 <= p < kept@.len() ==> #[trigger] kept@[p] == stays(p),
    ensures
        models(out@) == with_notes(content@, models(seen@), ints(indexes@), stays, *config),
{
    let ghost ms = models(seen@);
    let ghost is = ints(indexes@);
    let mut out: Vec<Json> = Vec::new();
    let mut run: Vec<usize> = Vec::new();
    let mut p: usize = 0;
    assert(models(out@) =~= marked_elements(content@, ms, is, stays, *config, 0));
    assert(ints(run@) =~= open_run(stays, 0));
    while p < seen.len()
        invariant
            p <= seen@.len() == indexes@.len() == kept@.len(),
            ms == models(seen@),
            is == ints(indexes@),
            forall|p: int| 0 <= p < kept@.len() ==> #[trigger] kept@[p] == stays(p),
            forall|k: int| 0 <= k < run@.len() ==> #[trigger] run@[k] < p,
            ints(run@) == open_run(stays, p as nat),
            models(out@) == marked_elements(content@, ms, is, stays, *config, p as nat),
        decreases seen.len() - p,
    {
        if kept[p] {
            push_note(&mut out, content, indexes, &run, config);
            let ghost before = models(out@);
            out.push(seen[p].copy());
            assert(models(out@) =~= before + seq![ms[p as int]]);
            run = Vec::new();
            assert(ints(run@) =~= seq![]);
        } else {
            let ghost before = run@;
            run.push(p);
            assert(ints(run@) =~= ints(before).push(p as int));
        }
        p = p + 1;
    }
    push_note(&mut out, content, indexes, &run, config);
    out
}

// ---------------------------------------------------------------------------
// The whole array
// ---------------------------------------------------------------------------

/// Whether the rows save at least the given percentage of the compact JSON.
pub open spec fn saves_enough(rows: nat, json: nat, percent: int) -> bool {
    100 * rows + percent * json <= 100 * json
}

/// The elements of the array that is kept row by row.
pub open spec fn row_selection(
    content: Seq<char>,
    elements: Seq<JsonModel>,
    structural: Seq<int>,
    config: JsonCompressConfig,
) -> Seq<JsonModel> {
    let indexes = first_indexes(elements, elements.len());
    let seen = arranged(elements, indexes);
    let edge = config.keep_edge as int;
    let interest = error_places(seen, seen.len()) + structural;
    if seen.len() > 2 * edge {
        with_notes(
            content,
            seen,
            indexes,
            |p: int| is_kept(interest, seen.len() as int, edge, p),
            config.invariants,
        )
    } else {
        seen
    }
}

/// What an array is compressed to.
pub struct ArrayModel {
    pub original: nat,
    pub compressed: nat,
    pub content: Seq<char>,
    pub rendering: JsonRendering,
}

pub open spec fn compressed_array(
    content: Seq<char>,
    structural: Seq<int>,
    config: JsonCompressConfig,
) -> Option<ArrayModel> {
    match json_parse(trim(content)) {
        Some(JsonModel::Array(elements)) => {
            let seen = arranged(elements, first_indexes(elements, elements.len()));
            let rows = row_selection(content, elements, structural, config);
            if seen.len() >= 2 && all_flat(seen) && saves_enough(
                byte_len(csv_text(seen)),
                byte_len(json_text(JsonModel::Array(seen))),
                config.lossless_min_savings_percent as int,
            ) {
                Some(
                    ArrayModel {
                        original: elements.len(),
                        compressed: seen.len(),
                        content: csv_text(seen),
                        rendering: JsonRendering::CsvSchema,
                    },
                )
            } else {
                Some(
                    ArrayModel {
                        original: elements.len(),
                        compressed: rows.len(),
                        content: json_text(JsonModel::Array(rows)),
                        rendering: JsonRendering::RowSelected,
                    },
                )
            }
        },
        _ => None,
    }
}

pub open spec fn result_model(r: Option<JsonCompressResult>) -> Option<ArrayModel> {
    match r {
        Some(c) => Some(
            ArrayModel {
                original: c.original_elements as nat,
                compressed: c.compressed_elements as nat,
                content: c.content@,
                rendering: c.rendering,
            },
        ),
        None => None,
    }
}

/// What is kept row by row reads as the JSON array of the rows, but for the digits of fractions.
pub open spec fn is_read_back(
    content: Seq<char>,
    structural: Seq<int>,
    config: JsonCompressConfig,
    r: Option<JsonCompressResult>,
) -> bool {
    match (json_parse(trim(content)), r) {
        (Some(JsonModel::Array(elements)), Some(c)) => {
            let rows = JsonModel::Array(row_selection(content, elements, structural, config));
            c.rendering == JsonRendering::RowSelected ==> {
                &&& reads_back(rows, MAX_DEPTH as int) ==> json_parse(c.content@) == Some(rows)
                &&& well_formed(rows) && no_raw_names(rows) ==> (json_parse(c.content@) matches Some(m)
                    ==> same_but_fractions(rows, m))
            }
        },
        _ => true,
    }
}

fn check_savings(rows: usize, json: usize, percent: u64) -> (b: bool)
    ensures
        b == saves_enough(rows as nat, json as nat, percent as int),
{
    assert(percent * json <= 0xffff_ffff_ffff_ffff * 0xffff_ffff_ffff_ffff) by (nonlinear_arith)
        requires
            0 <= percent <= 0xffff_ffff_ffff_ffff,
            0 <= json <= 0xffff_ffff_ffff_ffff,
    ;
    let p: u128 = percent as u128 * json as u128;
    let full: u128 = 100 * json as u128;
    let used: u128 = 100 * rows as u128;
    p <= full && used <= full - p
}

fn select_rows(
    content: &str,
    seen: Vec<Json>,
    indexes: &Vec<usize>,
    structural: &Vec<usize>,
    config: &JsonCompressConfig,
    Ghost(elements): Ghost<Seq<JsonModel>>,
) -> (out: Vec<Json>)
    requires
        config.keep_edge * 2 <= usize::MAX,
        ints(indexes@) == first_indexes(elements, elements.len()),
        models(seen@) == arranged(elements, ints(indexes@)),
    ensures
        models(out@) == row_selection(content@, elements, ints(structural@), *config),
{
    let ghost ms = models(seen@);
    assert(ms.len() == seen@.len());
    assert(ints(indexes@).len() == indexes@.len());
    if seen.len() <= config.keep_edge * 2 {
        return seen;
    }
    let mut interest = find_errors(&seen);
    let ghost errors = interest@;
    let mut i: usize = 0;
    assert(ints(errors) + ints(structural@).take(0) =~= ints(errors));
    while i < structural.len()
        invariant
            i <= structural@.len(),
            ints(interest@) == ints(errors) + ints(structural@).take(i as int),
        decreases structural.len() - i,
    {
        let ghost before = interest@;
        interest.push(structural[i]);
        assert(ints(interest@) =~= ints(before).push(structural@[i as int] as int));
        assert(ints(errors) + ints(structural@).take(i + 1) =~= (ints(errors) + ints(structural@).take(
            i as int,
        )).push(structural@[i as int] as int));
        i = i + 1;
    }
    assert(ints(structural@).take(structural@.len() as int) =~= ints(structural@));
    let kept = select_kept_positions(seen.len(), config.keep_edge, &interest);
    let ghost stays = |p: int|
        is_kept(
            error_places(ms, ms.len()) + ints(structural@),
            ms.len() as int,
            config.keep_edge as int,
            p,
        );
    build_output_with_markers(content, &seen, indexes, &kept, &config.invariants, Ghost(stays))
}

/// A JSON array with less in it, or nothing for a text that is no JSON array. `structural` names places
/// in the middle, counted among the elements that are equal to none before, that are worth keeping.
pub fn compress_json_array_keeping(
    content: &str,
    structural: &Vec<usize>,
    config: &JsonCompressConfig,
) -> (r: Option<JsonCompressResult>)
    requires
        config.keep_edge * 2 <= usize::MAX,
    ensures
        result_model(r) == compressed_array(content@, ints(structural@), *config),
        is_read_back(content@, ints(structural@), *config, r),
{
    let trimmed = trim_text(content);
    let elements = match parse_json(trimmed.as_str()) {
        Some(Json::Array(v)) => v,
        _ => {
            return None;
        },
    };
    let ghost es = models(elements@);
    let original_elements: usize = elements.len();
    let indexes = find_first(&elements);
    let seen = copy_at(&elements, &indexes);
    let ghost ms = models(seen@);
    assert(ms.len() == seen@.len());
    match render_csv_schema(seen.as_slice()) {
        Some(csv) => {
            let count: usize = seen.len();
            let whole = Json::Array(seen);
            let json = write_json(&whole);
            if check_savings(
                bytes_in(csv.as_str()),
                bytes_in(json.as_str()),
                config.lossless_min_savings_percent,
            ) {
                return Some(
                    JsonCompressResult {
                        original_elements,
                        compressed_elements: count,
                        content: csv,
                        rendering: JsonRendering::CsvSchema,
                    },
                );
            }
        },
        None => {},
    }
    let seen = copy_at(&elements, &indexes);
    let rows = select_rows(content, seen, &indexes, structural, config, Ghost(es));
    assert(models(rows@).len() == rows@.len());
    let compressed_elements: usize = rows.len();
    let whole = Json::Array(rows);
    let text = write_json(&whole);
    Some(
        JsonCompressResult {
            original_elements,
            compressed_elements,
            content: text,
            rendering: JsonRendering::RowSelected,
        },
    )
}

/// A JSON array with less in it, or nothing for a text that is no JSON array. Of the middle the elements
/// that tell of an error are worth keeping; elements that stand out by their fields or by a rare status
/// are not looked for here, but can be handed to [`compress_json_array_keeping`].
pub fn compress_json_array(content: &str, config: &JsonCompressConfig) -> (r: Option<JsonCompressResult>)
    requires
        config.keep_edge * 2 <= usize::MAX,
    ensures
        result_model(r) == compressed_array(content@, seq![], *config),
        is_read_back(content@, seq![], *config, r),
{
    let none: Vec<usize> = Vec::new();
    assert(ints(none@) =~= seq![]);
    compress_json_array_keeping(content, &none, config)
}

// ---------------------------------------------------------------------------
// Laws
// ---------------------------------------------------------------------------

/// Besides the ends no more of the middle stays than the ends hold.
pub proof fn interest_is_capped(interest: Seq<int>, n: int, edge: int)
    requires
        0 <= edge,
    ensures
        chosen_places(interest, n, edge).len() <= 2 * edge,
    decreases interest.len(),
{
    if interest.len() > 0 {
        interest_is_capped(interest.drop_last(), n, edge);
    }
}

/// An array with few enough elements keeps one of each.
pub proof fn small_arrays_are_kept(
    content: Seq<char>,
    elements: Seq<JsonModel>,
    structural: Seq<int>,
    config: JsonCompressConfig,
)
    requires
        first_indexes(elements, elements.len()).len() <= 2 * config.keep_edge,
    ensures
        row_selection(content, elements, structural, config) == arranged(
            elements,
            first_indexes(elements, elements.len()),
        ),
{
}

/// Which elements are equal to none before, the first of each.
pub open spec fn distinct_elements(elements: Seq<JsonModel>) -> Seq<JsonModel> {
    arranged(elements, first_indexes(elements, elements.len()))
}

/// An element that is to stay does, whether it stands at an end of the array or is of interest.
pub proof fn chosen_elements_stay(
    content: Seq<char>,
    elements: Seq<JsonModel>,
    structural: Seq<int>,
    config: JsonCompressConfig,
    p: int,
)
    requires
        ({
            let seen = distinct_elements(elements);
            &&& 0 <= p < seen.len()
            &&& is_kept(
                error_places(seen, seen.len()) + structural,
                seen.len() as int,
                config.keep_edge as int,
                p,
            )
        }),
    ensures
        row_selection(content, elements, structural, config).contains(distinct_elements(elements)[p]),
{
    let indexes = first_indexes(elements, elements.len());
    let seen = distinct_elements(elements);
    let edge = config.keep_edge as int;
    let interest = error_places(seen, seen.len()) + structural;
    if seen.len() > 2 * edge {
        let kept = |p: int| is_kept(interest, seen.len() as int, edge, p);
        lemma_kept_element(content, seen, indexes, kept, config.invariants, seen.len(), p);
        let part = marked_elements(content, seen, indexes, kept, config.invariants, seen.len());
        let k = choose|k: int| 0 <= k < part.len() && part[k] == seen[p];
        assert(with_notes(content, seen, indexes, kept, config.invariants)[k] == seen[p]);
    }
}

/// An element that tells of an error stays wherever it stands, as long as there are no more of them
/// than twice the elements that stay at one end.
pub proof fn buried_errors_stay(
    content: Seq<char>,
    elements: Seq<JsonModel>,
    structural: Seq<int>,
    config: JsonCompressConfig,
    p: int,
)
    requires
        ({
            let seen = distinct_elements(elements);
            let errors = error_places(seen, seen.len());
            errors.contains(p) && errors.len() <= 2 * config.keep_edge
        }),
    ensures
        row_selection(content, elements, structural, config).contains(distinct_elements(elements)[p]),
{
    let seen = distinct_elements(elements);
    let errors = error_places(seen, seen.len());
    let edge = config.keep_edge as int;
    lemma_error_places(seen, seen.len());
    lemma_few_are_chosen(errors, seen.len() as int, edge, p);
    lemma_chosen_stay_chosen(errors, structural, seen.len() as int, edge, p);
    let k = choose|k: int| 0 <= k < errors.len() && errors[k] == p;
    chosen_elements_stay(content, elements, structural, config, p);
}

proof fn lemma_error_places(items: Seq<JsonModel>, n: nat)
    ensures
        forall|k: int|
            0 <= k < error_places(items, n).len() ==> 0 <= #[trigger] error_places(items, n)[k] < n,
    decreases n,
{
    if n > 0 {
        let before = error_places(items, (n - 1) as nat);
        let out = error_places(items, n);
        lemma_error_places(items, (n - 1) as nat);
        assert forall|k: int| 0 <= k < out.len() implies 0 <= #[trigger] out[k] < n by {
            if k < before.len() {
                assert(out[k] == before[k]);
            }
        }
    }
}

/// Few places of interest are all kept.
proof fn lemma_few_are_chosen(interest: Seq<int>, n: int, edge: int, p: int)
    requires
        interest.len() <= 2 * edge,
        interest.contains(p),
    ensures
        is_kept(interest, n, edge, p),
    decreases interest.len(),
{
    let rest = interest.drop_last();
    let before = chosen_places(rest, n, edge);
    let out = chosen_places(interest, n, edge);
    lemma_no_more_chosen(rest, n, edge);
    if p == interest.last() {
        if !is_edge(p, n, edge) && !before.contains(p) {
            assert(out.last() == p);
        }
    } else {
        let k = choose|k: int| 0 <= k < interest.len() && interest[k] == p;
        assert(rest[k] == p);
        lemma_few_are_chosen(rest, n, edge, p);
        if before.contains(p) {
            let j = choose|j: int| 0 <= j < before.len() && before[j] == p;
            assert(out[j] == p);
        }
    }
}

proof fn lemma_no_more_chosen(interest: Seq<int>, n: int, edge: int)
    ensures
        chosen_places(interest, n, edge).len() <= interest.len(),
    decreases interest.len(),
{
    if interest.len() > 0 {
        lemma_no_more_chosen(interest.drop_last(), n, edge);
    }
}

proof fn lemma_chosen_stay_chosen(a: Seq<int>, b: Seq<int>, n: int, edge: int, p: int)
    requires
        is_kept(a, n, edge, p),
    ensures
        is_kept(a + b, n, edge, p),
    decreases b.len(),
{
    if b.len() == 0 {
        assert(a + b =~= a);
    } else {
        lemma_chosen_stay_chosen(a, b.drop_last(), n, edge, p);
        assert((a + b).drop_last() =~= a + b.drop_last());
        let before = chosen_places(a + b.drop_last(), n, edge);
        if before.contains(p) {
            let j = choose|j: int| 0 <= j < before.len() && before[j] == p;
            assert(chosen_places(a + b, n, edge)[j] == p);
        }
    }
}

proof fn lemma_kept_element(
    content: Seq<char>,
    seen: Seq<JsonModel>,
    indexes: Seq<int>,
    kept: spec_fn(int) -> bool,
    config: InvariantConfig,
    n: nat,
    p: int,
)
    requires
        0 <= p < n,
        kept(p),
    ensures
        marked_elements(content, seen, indexes, kept, config, n).contains(seen[p]),
    decreases n,
{
    let out = marked_elements(content, seen, indexes, kept, config, n);
    if p == n - 1 {
        assert(out.last() == seen[p]);
    } else {
        let before = marked_elements(content, seen, indexes, kept, config, (n - 1) as nat);
        lemma_kept_element(content, seen, indexes, kept, config, (n - 1) as nat, p);
        let k = choose|k: int| 0 <= k < before.len() && before[k] == seen[p];
        assert(out[k] == seen[p]);
    }
}

proof fn lemma_distinct(elements: Seq<JsonModel>, n: nat)
    requires
        n <= elements.len(),
    ensures
        ascending_below(first_indexes(elements, n), n as int),
        forall|k: int, l: int|
            0 <= k < l < first_indexes(elements, n).len() ==> !json_equal(
                elements[#[trigger] first_indexes(elements, n)[k]],
                elements[#[trigger] first_indexes(elements, n)[l]],
            ),
        forall|i: int|
            0 <= i < n ==> seen_before(elements, first_indexes(elements, n), #[trigger] elements[i]),
    decreases n,
{
    if n > 0 {
        let before = first_indexes(elements, (n - 1) as nat);
        let out = first_indexes(elements, n);
        lemma_distinct(elements, (n - 1) as nat);
        equal_values_are_the_same(elements[n - 1], elements[n - 1]);
        assert forall|k: int, l: int| 0 <= k < l < out.len() implies !json_equal(
            elements[#[trigger] out[k]],
            elements[#[trigger] out[l]],
        ) && out[k] < out[l] by {
            assert(out[k] == before[k]);
            if l < before.len() {
                assert(out[l] == before[l]);
            } else {
                assert(!seen_before(elements, before, elements[n - 1]));
            }
        }
        assert forall|i: int| 0 <= i < out.len() implies 0 <= #[trigger] out[i] < n by {
            if i < before.len() {
                assert(out[i] == before[i]);
            }
        }
        assert forall|i: int| 0 <= i < n implies seen_before(elements, out, #[trigger] elements[i]) by {
            if i < n - 1 || seen_before(elements, before, elements[i]) {
                let k = choose|k: int|
                    0 <= k < before.len() && json_equal(elements[#[trigger] before[k]], elements[i]);
                assert(out[k] == before[k]);
            } else {
                assert(out[out.len() - 1] == i);
            }
        }
    }
}

/// Equal elements are kept once and no element is lost: the distinct elements stand in the sequence of
/// the array, no two of them are equal, and every element, whatever its type, is equal to one of them.
pub proof fn every_element_is_represented(elements: Seq<JsonModel>)
    ensures
        is_subsequence(distinct_elements(elements), elements),
        forall|k: int, l: int|
            0 <= k < l < distinct_elements(elements).len() ==> !json_equal(
                #[trigger] distinct_elements(elements)[k],
                #[trigger] distinct_elements(elements)[l],
            ),
        forall|i: int|
            0 <= i < elements.len() ==> exists|k: int|
                0 <= k < distinct_elements(elements).len() && json_equal(
                    #[trigger] distinct_elements(elements)[k],
                    #[trigger] elements[i],
                ),
{
    let indexes = first_indexes(elements, elements.len());
    let seen = distinct_elements(elements);
    lemma_distinct(elements, elements.len());
    assert(seen == arranged(elements, indexes));
    assert forall|k: int, l: int| 0 <= k < l < seen.len() implies !json_equal(
        #[trigger] seen[k],
        #[trigger] seen[l],
    ) by {
        assert(seen[k] == elements[indexes[k]] && seen[l] == elements[indexes[l]]);
    }
    assert forall|i: int| 0 <= i < elements.len() implies exists|k: int|
        0 <= k < seen.len() && json_equal(#[trigger] seen[k], #[trigger] elements[i]) by {
        assert(seen_before(elements, indexes, elements[i]));
        let k = choose|k: int|
            0 <= k < indexes.len() && json_equal(elements[#[trigger] indexes[k]], elements[i]);
        assert(json_equal(seen[k], elements[i]));
    }
}

/// Elements of which no two are equal are all distinct elements, in their sequence.
pub proof fn unequal_elements_are_distinct(elements: Seq<JsonModel>, n: nat)
    requires
        n <= elements.len(),
        forall|i: int, j: int|
            0 <= i < j < elements.len() ==> !json_equal(#[trigger] elements[i], #[trigger] elements[j]),
    ensures
        first_indexes(elements, n) == Seq::new(n, |i: int| i),
        n == elements.len() ==> distinct_elements(elements) == elements,
    decreases n,
{
    let places = Seq::new(n, |i: int| i);
    if n > 0 {
        let before = first_indexes(elements, (n - 1) as nat);
        unequal_elements_are_distinct(elements, (n - 1) as nat);
        assert(!seen_before(elements, before, elements[n - 1])) by {
            assert forall|k: int| 0 <= k < before.len() implies !json_equal(
                elements[#[trigger] before[k]],
                elements[n - 1],
            ) by {
                assert(before[k] == k);
            }
        }
    }
    assert(first_indexes(elements, n) =~= places);
    if n == elements.len() {
        assert(distinct_elements(elements) =~= elements);
    }
}

/// What a text that is an array of at most twice `keep_edge` elements, no two of them equal, becomes where
/// it is no table: the array with all its elements in order.
pub proof fn small_arrays_come_back(
    content: Seq<char>,
    elements: Seq<JsonModel>,
    structural: Seq<int>,
    config: JsonCompressConfig,
)
    requires
        json_parse(trim(content)) == Some(JsonModel::Array(elements)),
        elements.len() <= 2 * config.keep_edge,
        forall|i: int, j: int|
            0 <= i < j < elements.len() ==> !json_equal(#[trigger] elements[i], #[trigger] elements[j]),
    ensures
        compressed_array(content, structural, config) matches Some(a) && a.original == elements.len()
            && a.compressed == elements.len() && (a.rendering == JsonRendering::RowSelected
            ==> a.content == json_text(JsonModel::Array(elements))),
{
    unequal_elements_are_distinct(elements, elements.len());
    assert(arranged(elements, first_indexes(elements, elements.len())) == elements);
}

/// A table is written just where there are two distinct elements or more, all of them flat objects, and
/// it saves so many percent of the bytes of the compact JSON; a text that is no JSON array has no result.
pub proof fn tables_are_written_where_they_save(
    content: Seq<char>,
    structural: Seq<int>,
    config: JsonCompressConfig,
)
    ensures
        compressed_array(content, structural, config) is Some <==> (json_parse(trim(content)) matches Some(
            JsonModel::Array(_),
        )),
        json_parse(trim(content)) matches Some(JsonModel::Array(elements)) ==> ({
            let seen = distinct_elements(elements);
            let a = compressed_array(content, structural, config)->0;
            let table = byte_len(csv_text(seen)) as int;
            let json = byte_len(json_text(JsonModel::Array(seen))) as int;
            &&& a.original == elements.len()
            &&& a.rendering == JsonRendering::CsvSchema <==> seen.len() >= 2 && all_flat(seen)
                && config.lossless_min_savings_percent * json <= 100 * (json - table)
            &&& a.rendering == JsonRendering::CsvSchema ==> a.content == csv_text(seen)
                && a.compressed == seen.len()
            &&& a.rendering == JsonRendering::RowSelected ==> ({
                let rows = row_selection(content, elements, structural, config);
                a.content == json_text(JsonModel::Array(rows)) && a.compressed == rows.len()
            })
        }),
{
}

/// The text starts as a note for `k` elements does.
pub open spec fn is_note_for(row: JsonModel, k: int) -> bool {
    row matches JsonModel::Text(t) && starts_with(
        t,
        "..."@ + dec(k as nat) + " more elements omitted"@,
    )
}

/// The rows account for the first `n` elements: each row is the next element, or a note for as many
/// elements as it says.
pub open spec fn account_for(rows: Seq<JsonModel>, seen: Seq<JsonModel>, n: int) -> bool
    decreases rows.len(),
{
    if rows.len() == 0 {
        n == 0
    } else {
        ||| 0 < n <= seen.len() && rows.last() == seen[n - 1] && account_for(
            rows.drop_last(),
            seen,
            n - 1,
        )
        ||| exists|k: int|
            1 <= k <= n && #[trigger] is_note_for(rows.last(), k) && account_for(
                rows.drop_last(),
                seen,
                n - k,
            )
    }
}

proof fn lemma_note_start(content: Seq<char>, indexes: Seq<int>, config: InvariantConfig)
    ensures
        is_note_for(
            JsonModel::Text(drop_note(content, indexes, config)),
            indexes.len() as int,
        ),
{
    let start = "..."@ + dec(indexes.len()) + " more elements omitted"@;
    let note = drop_note(content, indexes, config);
    assert(note.take(start.len() as int) =~= start);
}

proof fn lemma_run_len(kept: spec_fn(int) -> bool, n: nat)
    ensures
        open_run(kept, n).len() <= n,
    decreases n,
{
    if n > 0 && !kept(n - 1) {
        lemma_run_len(kept, (n - 1) as nat);
    }
}

proof fn lemma_note_accounts(
    content: Seq<char>,
    seen: Seq<JsonModel>,
    indexes: Seq<int>,
    run: Seq<int>,
    config: InvariantConfig,
    rows: Seq<JsonModel>,
    n: int,
)
    requires
        account_for(rows, seen, n),
        n >= 0,
    ensures
        account_for(rows + note_for(content, indexes, run, config), seen, n + run.len()),
{
    let note = note_for(content, indexes, run, config);
    let out = rows + note;
    if run.len() == 0 {
        assert(out =~= rows);
    } else {
        lemma_note_start(content, arranged(indexes, run), config);
        assert(out.drop_last() =~= rows);
        assert(is_note_for(out.last(), run.len() as int));
    }
}

proof fn lemma_marked_account(
    content: Seq<char>,
    seen: Seq<JsonModel>,
    indexes: Seq<int>,
    kept: spec_fn(int) -> bool,
    config: InvariantConfig,
    n: nat,
)
    requires
        n <= seen.len(),
    ensures
        account_for(
            marked_elements(content, seen, indexes, kept, config, n),
            seen,
            n - open_run(kept, n).len(),
        ),
    decreases n,
{
    if n > 0 {
        let m = (n - 1) as nat;
        let before = marked_elements(content, seen, indexes, kept, config, m);
        let run = open_run(kept, m);
        lemma_marked_account(content, seen, indexes, kept, config, m);
        if kept(n - 1) {
            lemma_run_len(kept, m);
            lemma_note_accounts(content, seen, indexes, run, config, before, m - run.len());
            let part = before + note_for(content, indexes, run, config);
            let out = marked_elements(content, seen, indexes, kept, config, n);
            assert(out == part + seq![seen[n - 1]]);
            assert(out.drop_last() =~= part);
            assert(out.last() == seen[n - 1]);
        }
    }
}

/// Nothing is left out in silence: the rows are the distinct elements in their sequence, but for notes
/// that say how many of them are left out in their place.
pub proof fn rows_account_for_all_elements(
    content: Seq<char>,
    elements: Seq<JsonModel>,
    structural: Seq<int>,
    config: JsonCompressConfig,
)
    ensures
        account_for(
            row_selection(content, elements, structural, config),
            distinct_elements(elements),
            distinct_elements(elements).len() as int,
        ),
{
    let indexes = first_indexes(elements, elements.len());
    let seen = distinct_elements(elements);
    let edge = config.keep_edge as int;
    let interest = error_places(seen, seen.len()) + structural;
    if seen.len() > 2 * edge {
        let kept = |p: int| is_kept(interest, seen.len() as int, edge, p);
        lemma_marked_account(content, seen, indexes, kept, config.invariants, seen.len());
        lemma_run_len(kept, seen.len());
        lemma_note_accounts(
            content,
            seen,
            indexes,
            open_run(kept, seen.len()),
            config.invariants,
            marked_elements(content, seen, indexes, kept, config.invariants, seen.len()),
            seen.len() - open_run(kept, seen.len()).len(),
        );
    } else {
        lemma_elements_account(seen, seen.len());
        assert(seen.take(seen.len() as int) =~= seen);
    }
}

proof fn lemma_elements_account(seen: Seq<JsonModel>, n: nat)
    requires
        n <= seen.len(),
    ensures
        account_for(seen.take(n as int), seen, n as int),
    decreases n,
{
    if n > 0 {
        lemma_elements_account(seen, (n - 1) as nat);
        assert(seen.take(n as int).drop_last() =~= seen.take(n - 1));
    }
}

/// The first and the last elements of a long array stay at its ends.
pub proof fn ends_stay(
    content: Seq<char>,
    elements: Seq<JsonModel>,
    structural: Seq<int>,
    config: JsonCompressConfig,
)
    requires
        distinct_elements(elements).len() > 2 * config.keep_edge,
    ensures
        ({
            let seen = distinct_elements(elements);
            let rows = row_selection(content, elements, structural, config);
            let e = config.keep_edge as int;
            &&& rows.len() >= 2 * e
            &&& rows.take(e) == seen.take(e)
            &&& rows.skip(rows.len() - e) == seen.skip(seen.len() - e)
        }),
{
    let indexes = first_indexes(elements, elements.len());
    let seen = distinct_elements(elements);
    let e = config.keep_edge as int;
    let n = seen.len() as int;
    let interest = error_places(seen, seen.len()) + structural;
    let kept = |p: int| is_kept(interest, n, e, p);
    let rows = row_selection(content, elements, structural, config);
    lemma_start_stays(content, seen, indexes, kept, config.invariants, e as nat, seen.len());
    lemma_end_stays(content, seen, indexes, kept, config.invariants, (n - e) as nat, seen.len());
    let part = marked_elements(content, seen, indexes, kept, config.invariants, seen.len());
    if e > 0 {
        assert(kept(n - 1));
        assert(open_run(kept, seen.len()) =~= seq![]);
        assert(rows =~= part);
    }
    let short = marked_elements(content, seen, indexes, kept, config.invariants, (n - e) as nat);
    lemma_start_stays(content, seen, indexes, kept, config.invariants, e as nat, (n - e) as nat);
    assert(rows.take(e) =~= seen.take(e));
    assert(rows.skip(rows.len() - e) =~= seen.skip(n - e));
}

proof fn lemma_start_stays(
    content: Seq<char>,
    seen: Seq<JsonModel>,
    indexes: Seq<int>,
    kept: spec_fn(int) -> bool,
    config: InvariantConfig,
    e: nat,
    n: nat,
)
    requires
        e <= n <= seen.len(),
        forall|p: int| 0 <= p < e ==> #[trigger] kept(p),
    ensures
        marked_elements(content, seen, indexes, kept, config, n).len() >= e,
        marked_elements(content, seen, indexes, kept, config, n).take(e as int) == seen.take(e as int),
    decreases n,
{
    let out = marked_elements(content, seen, indexes, kept, config, n);
    if n > 0 {
        let m = (n - 1) as nat;
        let before = marked_elements(content, seen, indexes, kept, config, m);
        if e < n {
            lemma_start_stays(content, seen, indexes, kept, config, e, m);
            assert(out.take(e as int) =~= before.take(e as int));
        } else {
            assert(kept(n - 1));
            lemma_start_stays(content, seen, indexes, kept, config, m, m);
            lemma_no_run(kept, m);
            lemma_marked_len(content, seen, indexes, kept, config, m);
            assert(before.take(m as int) =~= before);
            assert(out =~= before + seq![seen[n - 1]]);
            assert(out.take(e as int) =~= seen.take(e as int));
        }
    } else {
        assert(out.take(0) =~= seen.take(0));
    }
}

proof fn lemma_no_run(kept: spec_fn(int) -> bool, n: nat)
    requires
        forall|p: int| 0 <= p < n ==> #[trigger] kept(p),
    ensures
        open_run(kept, n).len() == 0,
{
    if n > 0 {
        assert(kept(n - 1));
    }
}

proof fn lemma_marked_len(
    content: Seq<char>,
    seen: Seq<JsonModel>,
    indexes: Seq<int>,
    kept: spec_fn(int) -> bool,
    config: InvariantConfig,
    n: nat,
)
    requires
        forall|p: int| 0 <= p < n ==> #[trigger] kept(p),
    ensures
        marked_elements(content, seen, indexes, kept, config, n).len() == n,
    decreases n,
{
    if n > 0 {
        assert(kept(n - 1));
        lemma_no_run(kept, (n - 1) as nat);
        lemma_marked_len(content, seen, indexes, kept, config, (n - 1) as nat);
    }
}

/// Where all places from `from` on stay, their elements end the rows.
proof fn lemma_end_stays(
    content: Seq<char>,
    seen: Seq<JsonModel>,
    indexes: Seq<int>,
    kept: spec_fn(int) -> bool,
    config: InvariantConfig,
    from: nat,
    n: nat,
)
    requires
        from <= n <= seen.len(),
        forall|p: int| from <= p < n ==> #[trigger] kept(p),
    ensures
        ({
            let out = marked_elements(content, seen, indexes, kept, config, n);
            let short = marked_elements(content, seen, indexes, kept, config, from);
            &&& out.len() >= short.len() + n - from
            &&& out.skip(out.len() - (n - from)) == seen.subrange(from as int, n as int)
        }),
    decreases n,
{
    let out = marked_elements(content, seen, indexes, kept, config, n);
    if from < n {
        let m = (n - 1) as nat;
        let before = marked_elements(content, seen, indexes, kept, config, m);
        lemma_end_stays(content, seen, indexes, kept, config, from, m);
        assert(kept(n - 1));
        if from < m {
            assert(kept(m - 1));
            assert(open_run(kept, m).len() == 0);
            assert(out =~= before + seq![seen[n - 1]]);
        }
        let w = (n - from) as int;
        let tail = before.skip(before.len() - (m - from));
        assert(out.skip(out.len() - w) =~= tail + seq![seen[n - 1]]);
        assert(seen.subrange(from as int, n as int) =~= seen.subrange(from as int, m as int) + seq![
            seen[n - 1],
        ]);
    } else {
        assert(out.skip(out.len() as int) =~= seen.subrange(from as int, n as int));
    }
}

/// A distinct element that is an object with a word of an error in its text stays wherever it stands, as
/// long as there are no more of them than twice the elements that stay at one end.
pub proof fn elements_that_tell_of_errors_stay(
    content: Seq<char>,
    elements: Seq<JsonModel>,
    structural: Seq<int>,
    config: JsonCompressConfig,
    p: int,
)
    requires
        0 <= p < distinct_elements(elements).len(),
        distinct_elements(elements)[p] is Object,
        has_error_word(lower(json_text(distinct_elements(elements)[p]))),
        distinct_elements(elements).filter(
            |m: JsonModel| m is Object && has_error_word(lower(json_text(m))),
        ).len() <= 2 * config.keep_edge,
    ensures
        row_selection(content, elements, structural, config).contains(distinct_elements(elements)[p]),
{
    let seen = distinct_elements(elements);
    lemma_errors_counted(seen, seen.len());
    assert(seen.take(seen.len() as int) =~= seen);
    lemma_error_is_counted(seen, seen.len(), p);
    buried_errors_stay(content, elements, structural, config, p);
}

proof fn lemma_errors_counted(items: Seq<JsonModel>, n: nat)
    requires
        n <= items.len(),
    ensures
        error_places(items, n).len() == items.take(n as int).filter(
            |m: JsonModel| m is Object && has_error_word(lower(json_text(m))),
        ).len(),
    decreases n,
{
    reveal(Seq::filter);
    if n > 0 {
        lemma_errors_counted(items, (n - 1) as nat);
        assert(items.take(n as int).drop_last() =~= items.take(n - 1));
    }
}

proof fn lemma_error_is_counted(items: Seq<JsonModel>, n: nat, p: int)
    requires
        0 <= p < n <= items.len(),
        is_error_item(items[p]),
    ensures
        error_places(items, n).contains(p),
    decreases n,
{
    let out = error_places(items, n);
    if p == n - 1 {
        assert(out[out.len() - 1] == p);
    } else {
        lemma_error_is_counted(items, (n - 1) as nat, p);
        let before = error_places(items, (n - 1) as nat);
        let k = choose|k: int| 0 <= k < before.len() && before[k] == p;
        assert(out[k] == p);
    }
}

/// Of places of interest that differ, the first ones between the ends are chosen, as many as stand at
/// both ends together.
pub proof fn the_first_of_interest_are_chosen(interest: Seq<int>, n: int, edge: int)
    requires
        0 <= edge,
        interest.no_duplicates(),
    ensures
        ({
            let between = interest.filter(|p: int| edge <= p < n - edge);
            chosen_places(interest, n, edge) == between.take(
                if between.len() < 2 * edge {
                    between.len() as int
                } else {
                    2 * edge
                },
            )
        }),
    decreases interest.len(),
{
    reveal(Seq::filter);
    let inside = |p: int| edge <= p < n - edge;
    let between = interest.filter(inside);
    if interest.len() > 0 {
        let rest = interest.drop_last();
        let p = interest.last();
        assert forall|i: int, j: int| 0 <= i < rest.len() && 0 <= j < rest.len() && i != j implies rest[i]
            != rest[j] by {
            assert(rest[i] == interest[i] && rest[j] == interest[j]);
        }
        the_first_of_interest_are_chosen(rest, n, edge);
        let before = chosen_places(rest, n, edge);
        lemma_chosen_among(rest, n, edge);
        assert(!before.contains(p)) by {
            if before.contains(p) {
                assert(rest.contains(p));
                let k = choose|k: int| 0 <= k < rest.len() && rest[k] == p;
                assert(interest[k] == interest[interest.len() - 1]);
            }
        }
        let earlier = rest.filter(inside);
        assert(chosen_places(interest, n, edge) =~= between.take(
            if between.len() < 2 * edge {
                between.len() as int
            } else {
                2 * edge
            },
        ));
    } else {
        assert(between =~= Seq::<int>::empty());
        assert(chosen_places(interest, n, edge) =~= between.take(0));
    }
}

proof fn lemma_chosen_among(interest: Seq<int>, n: int, edge: int)
    ensures
        forall|p: int| #[trigger] chosen_places(interest, n, edge).contains(p) ==> interest.contains(p),
    decreases interest.len(),
{
    let out = chosen_places(interest, n, edge);
    if interest.len() > 0 {
        let rest = interest.drop_last();
        let before = chosen_places(rest, n, edge);
        lemma_chosen_among(rest, n, edge);
        assert forall|p: int| #[trigger] out.contains(p) implies interest.contains(p) by {
            let k = choose|k: int| 0 <= k < out.len() && out[k] == p;
            if k < before.len() {
                assert(before[k] == p);
                assert(before.contains(p));
                assert(rest.contains(p));
                let j = choose|j: int| 0 <= j < rest.len() && rest[j] == p;
                assert(interest[j] == p);
            } else {
                assert(interest[interest.len() - 1] == p);
            }
        }
    }
}

/// How many of the first `n` places stay.
spec fn kept_count(kept: spec_fn(int) -> bool, n: nat) -> nat
    decreases n,
{
    if n == 0 {
        0
    } else {
        kept_count(kept, (n - 1) as nat) + if kept(n - 1) {
            1nat
        } else {
            0
        }
    }
}

proof fn lemma_rows_counted(
    content: Seq<char>,
    seen: Seq<JsonModel>,
    indexes: Seq<int>,
    kept: spec_fn(int) -> bool,
    config: InvariantConfig,
    n: nat,
)
    ensures
        marked_elements(content, seen, indexes, kept, config, n).len() <= 2 * kept_count(kept, n),
    decreases n,
{
    if n > 0 {
        lemma_rows_counted(content, seen, indexes, kept, config, (n - 1) as nat);
    }
}

proof fn lemma_below(chosen: Seq<int>, n: int)
    ensures
        chosen.filter(|p: int| p < n).len() + if chosen.contains(n) {
            1nat
        } else {
            0
        } <= chosen.filter(|p: int| p < n + 1).len(),
        chosen.filter(|p: int| p < n).len() <= chosen.len(),
    decreases chosen.len(),
{
    reveal(Seq::filter);
    if chosen.len() > 0 {
        let rest = chosen.drop_last();
        lemma_below(rest, n);
        if chosen.contains(n) && chosen.last() != n {
            let k = choose|k: int| 0 <= k < chosen.len() && chosen[k] == n;
            assert(rest[k] == n);
        }
    }
}

proof fn lemma_kept_counted(chosen: Seq<int>, total: int, edge: int, n: nat)
    requires
        0 <= edge,
        n <= total,
        2 * edge < total,
    ensures
        kept_count(|p: int| p < edge || p >= total - edge || chosen.contains(p), n) <= (if n < edge {
            n as int
        } else {
            edge
        }) + (if n > total - edge {
            n - (total - edge)
        } else {
            0
        }) + chosen.filter(|p: int| p < n).len(),
    decreases n,
{
    let kept = |p: int| p < edge || p >= total - edge || chosen.contains(p);
    if n > 0 {
        lemma_kept_counted(chosen, total, edge, (n - 1) as nat);
        lemma_below(chosen, n - 1);
        assert(kept(n - 1) == (n - 1 < edge || n - 1 >= total - edge || chosen.contains(n - 1)));
    }
}

proof fn lemma_same_count(a: spec_fn(int) -> bool, b: spec_fn(int) -> bool, n: nat)
    requires
        forall|p: int| #[trigger] a(p) == b(p),
    ensures
        kept_count(a, n) == kept_count(b, n),
    decreases n,
{
    if n > 0 {
        lemma_same_count(a, b, (n - 1) as nat);
        assert(a(n - 1) == b(n - 1));
    }
}

/// However long an array is, no more than four times `keep_edge` of its elements stay, with a note at most
/// before each of them and one behind.
pub proof fn long_arrays_get_short(
    content: Seq<char>,
    elements: Seq<JsonModel>,
    structural: Seq<int>,
    config: JsonCompressConfig,
)
    ensures
        row_selection(content, elements, structural, config).len() <= 8 * config.keep_edge + 1,
{
    let indexes = first_indexes(elements, elements.len());
    let seen = distinct_elements(elements);
    let edge = config.keep_edge as int;
    let interest = error_places(seen, seen.len()) + structural;
    let total = seen.len() as int;
    if total > 2 * edge {
        let kept = |p: int| is_kept(interest, total, edge, p);
        let chosen = chosen_places(interest, total, edge);
        let same = |p: int| p < edge || p >= total - edge || chosen.contains(p);
        lemma_rows_counted(content, seen, indexes, kept, config.invariants, seen.len());
        lemma_kept_counted(chosen, total, edge, seen.len());
        interest_is_capped(interest, total, edge);
        lemma_below(chosen, total);
        lemma_same_count(kept, same, seen.len());
    }
}

/// The note says how many elements are left out and, where something holds of all of them, what it is.
/// Of the elements that are left out those that are objects are looked at, each by its fields, with
/// strings told as the texts that they stand for.
pub proof fn notes_tell_what_is_left_out(
    content: Seq<char>,
    raw: Seq<Seq<char>>,
    indexes: Seq<int>,
    i: int,
    config: InvariantConfig,
)
    requires
        json_raw_elements(trim(content)) == Some(raw),
    ensures
        ({
            let start = "..."@ + dec(indexes.len()) + " more elements omitted"@;
            let facts = description(dropped_units(raw, indexes), config);
            &&& facts is Some ==> drop_note(content, indexes, config) == start + " ("@ + facts->0 + ")..."@
            &&& facts is None ==> drop_note(content, indexes, config) == start + "..."@
        }),
        0 <= i < raw.len() && json_raw_fields(raw[i]) is Some ==> ({
            let fs = json_raw_fields(raw[i])->0;
            dropped_units(raw, indexes.push(i)) == dropped_units(raw, indexes).push(
                Seq::new(
                    fs.len(),
                    |k: int|
                        (
                            fs[k].0,
                            if json_string(fs[k].1) is Some {
                                json_string(fs[k].1)->0
                            } else {
                                fs[k].1
                            },
                        ),
                ),
            )
        }),
        0 <= i < raw.len() && json_raw_fields(raw[i]) is None ==> dropped_units(raw, indexes.push(i))
            == dropped_units(raw, indexes),
{
    assert(indexes.push(i).drop_last() =~= indexes);
    if 0 <= i < raw.len() && json_raw_fields(raw[i]) is Some {
        let fs = json_raw_fields(raw[i])->0;
        assert(shown_fields(fs) =~= Seq::new(
            fs.len(),
            |k: int|
                (
                    fs[k].0,
                    if json_string(fs[k].1) is Some {
                        json_string(fs[k].1)->0
                    } else {
                        fs[k].1
                    },
                ),
        ));
    }
}

} // verus!
